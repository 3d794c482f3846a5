//! The `## Summary` section of a run's Markdown report: the summary metrics, the diversity
//! checks, and the outcome tables overall, by pairing, by length, by ply and by first-action
//! orbit. Cells that hold fractions are formatted by the caller and handed in as text.

use vstd::prelude::*;
use vstd::string::*;
use crate::discovery::config::texts;
use crate::discovery::summary::{OutcomeCounts, SummaryCounts};
use crate::framework::text::{decimal, decimal_string, join_with, joined};
use crate::framework::traits::GameDomain;

verus! {

/// The text cells of the summary section that the counts do not give: the run and game, the
/// fractions (formatted to three decimals), and the diversity checks.
#[derive(Clone, Debug, PartialEq)]
pub struct SummaryCells {
    /// The run id, or `-`.
    pub run_id: String,
    /// The game name.
    pub game: String,
    /// Known canonical positions, or `-`.
    pub known_canonical_positions: String,
    /// Distinct games over games.
    pub distinct_game_fraction: String,
    /// Distinct canonical positions over known ones, or `-`.
    pub canonical_coverage: String,
    /// Decisive games over games.
    pub decisive_fraction: String,
    /// Value, threshold and pass cells of the canonical coverage check.
    pub coverage_check: String,
    /// Value, threshold and pass cells of the decisive fraction check.
    pub decisive_check: String,
    /// Value, threshold and pass cells of the distinct game fraction check.
    pub distinct_check: String,
    /// Whether every diversity check passed: `yes` or `no`.
    pub diversity_pass: String,
    /// The failed checks, described.
    pub diversity_failures: Vec<String>,
}

/// `| {a} | {b} |`.
pub open spec fn row2(a: Seq<char>, b: Seq<char>) -> Seq<char> {
    "| "@ + a + " | "@ + b + " |"@
}

/// `{label}={wins}` for each winner, comma-separated, or `-` without winners.
pub open spec fn wins_text<G: GameDomain>(wins: Seq<(G::Player, usize)>) -> Seq<char> {
    if wins.len() == 0 {
        "-"@
    } else {
        joined(
            Seq::new(wins.len(), |k: int| G::spec_player_label(wins[k].0) + "="@ + decimal(wins[k].1 as nat)),
            ", "@,
        )
    }
}

/// `{wins} | {draws} | {unfinished} | {total}`.
pub open spec fn outcome_cells<G: GameDomain>(c: OutcomeCounts<G::Player>) -> Seq<char> {
    wins_text::<G>(c.wins@) + " | "@ + decimal(c.draws as nat) + " | "@ + decimal(c.unfinished as nat) + " | "@
        + decimal(c.total as nat)
}

/// The metric table.
pub open spec fn metric_lines<P>(c: SummaryCounts<P>, cells: SummaryCells) -> Seq<Seq<char>> {
    seq![
        "| metric | value |"@,
        "| --- | --- |"@,
        row2("run_id"@, cells.run_id@),
        row2("game"@, cells.game@),
        row2("games"@, decimal(c.games as nat)),
        row2("positions"@, decimal(c.positions as nat)),
        row2("distinct_games"@, decimal(c.distinct_games as nat)),
        row2("distinct_game_fraction"@, cells.distinct_game_fraction@),
        row2("distinct_positions"@, decimal(c.distinct_positions as nat)),
        row2("distinct_canonical_positions"@, decimal(c.distinct_canonical_positions as nat)),
        row2("known_canonical_positions"@, cells.known_canonical_positions@),
        row2("canonical_coverage"@, cells.canonical_coverage@),
        row2("decisive_games"@, decimal(c.decisive_games as nat)),
        row2("decisive_fraction"@, cells.decisive_fraction@),
    ]
}

/// The diversity table.
pub open spec fn diversity_lines(cells: SummaryCells) -> Seq<Seq<char>> {
    seq![
        "| metric | value | threshold | pass |"@,
        "| --- | --- | --- | --- |"@,
        row2("canonical_coverage"@, cells.coverage_check@),
        row2("decisive_fraction"@, cells.decisive_check@),
        row2("distinct_game_fraction"@, cells.distinct_check@),
    ]
}

/// The overall outcome table.
pub open spec fn outcome_lines<G: GameDomain>(c: OutcomeCounts<G::Player>) -> Seq<Seq<char>> {
    seq!["| outcome | games |"@, "| --- | --- |"@] + Seq::new(
        c.wins@.len(),
        |k: int| row2("win "@ + G::spec_player_label(c.wins@[k].0), decimal(c.wins@[k].1 as nat)),
    ) + seq![
        row2("draw"@, decimal(c.draws as nat)),
        row2("unfinished"@, decimal(c.unfinished as nat)),
        row2("total"@, decimal(c.total as nat)),
    ]
}

/// Header of a keyed outcome table.
pub open spec fn keyed_header(key: Seq<char>) -> Seq<Seq<char>> {
    seq!["| "@ + key + " | wins | draws | unfinished | total |"@, "| --- | --- | --- | --- | --- |"@]
}

/// The by-pairing table.
pub open spec fn pairing_lines<G: GameDomain>(t: Seq<(String, OutcomeCounts<G::Player>)>) -> Seq<Seq<char>> {
    keyed_header("pairing"@) + Seq::new(t.len(), |k: int| row2(t[k].0@, outcome_cells::<G>(t[k].1)))
}

/// A table keyed by number with outcome counts.
pub open spec fn numbered_lines<G: GameDomain>(key: Seq<char>, t: Seq<(usize, OutcomeCounts<G::Player>)>) -> Seq<Seq<char>> {
    keyed_header(key) + Seq::new(t.len(), |k: int| row2(decimal(t[k].0 as nat), outcome_cells::<G>(t[k].1)))
}

/// The by-length table.
pub open spec fn length_lines(t: Seq<(usize, usize)>) -> Seq<Seq<char>> {
    seq!["| length | games |"@, "| --- | --- |"@] + Seq::new(
        t.len(),
        |k: int| row2(decimal(t[k].0 as nat), decimal(t[k].1 as nat)),
    )
}

/// The section's blocks, in order.
pub open spec fn summary_blocks<G: GameDomain>(c: SummaryCounts<G::Player>, cells: SummaryCells) -> Seq<Seq<char>> {
    let nl = "\n"@;
    let failures = texts(cells.diversity_failures@);
    seq![
        "## Summary"@,
        joined(metric_lines(c, cells), nl),
        "### Diversity"@,
        joined(diversity_lines(cells), nl),
        "Diversity pass: "@ + cells.diversity_pass@,
    ] + (if failures.len() == 0 {
        seq![]
    } else {
        seq![joined(Seq::new(failures.len(), |k: int| "- "@ + failures[k]), nl)]
    }) + seq![
        "### Outcomes"@,
        joined(outcome_lines::<G>(c.outcomes), nl),
        "### By pairing"@,
        joined(pairing_lines::<G>(c.by_pairing@), nl),
        "### By length"@,
        joined(length_lines(c.by_length@), nl),
        "### By ply"@,
        joined(numbered_lines::<G>("ply"@, c.by_ply@), nl),
        "### By first-action orbit"@,
        joined(numbered_lines::<G>("orbit"@, c.by_first_action_orbit@), nl),
    ]
}

/// The section: its blocks separated by blank lines, ending in one newline.
pub open spec fn summary_markdown<G: GameDomain>(c: SummaryCounts<G::Player>, cells: SummaryCells) -> Seq<char> {
    joined(summary_blocks::<G>(c, cells), "\n\n"@) + "\n"@
}

/// `| {a} | {b} |`.
fn cells2(a: &str, b: &str) -> (s: String)
    ensures
        s@ == row2(a@, b@),
{
    proof {
        reveal_strlit("| ");
        reveal_strlit(" | ");
        reveal_strlit(" |");
    }
    let mut s = String::from_str("| ");
    s.append(a);
    s.append(" | ");
    s.append(b);
    s.append(" |");
    s
}

/// `| {a} | {n} |`.
fn count_row(a: &str, n: usize) -> (s: String)
    ensures
        s@ == row2(a@, decimal(n as nat)),
{
    let d = decimal_string(n);
    cells2(a, d.as_str())
}

/// The winners' text of a tally.
fn render_wins<G: GameDomain>(wins: &Vec<(G::Player, usize)>) -> (s: String)
    ensures
        s@ == wins_text::<G>(wins@),
{
    proof {
        reveal_strlit("-");
        reveal_strlit("=");
    }
    if wins.len() == 0 {
        return String::from_str("-");
    }
    let ghost items = Seq::new(wins@.len(), |k: int| G::spec_player_label(wins@[k].0) + "="@ + decimal(wins@[k].1 as nat));
    let mut parts: Vec<String> = Vec::new();
    let mut k: usize = 0;
    while k < wins.len()
        invariant
            k <= wins@.len(),
            items == Seq::new(wins@.len(), |k: int| G::spec_player_label(wins@[k].0) + "="@ + decimal(wins@[k].1 as nat)),
            parts@.len() == k,
            forall|j: int| 0 <= j < k ==> (#[trigger] parts@[j])@ == G::spec_player_label(wins@[j].0) + "="@ + decimal(wins@[j].1 as nat),
        decreases wins@.len() - k,
    {
        let mut p = G::player_label(&wins[k].0);
        p.append("=");
        let d = decimal_string(wins[k].1);
        p.append(d.as_str());
        parts.push(p);
        k = k + 1;
    }
    proof {
        assert(parts@.map_values(|p: String| p@) =~= items);
        reveal_strlit(", ");
    }
    join_with(parts.as_slice(), ", ")
}

/// The cells of a tally.
fn render_outcome<G: GameDomain>(c: &OutcomeCounts<G::Player>) -> (s: String)
    ensures
        s@ == outcome_cells::<G>(*c),
{
    proof {
        reveal_strlit(" | ");
    }
    let mut s = render_wins::<G>(&c.wins);
    s.append(" | ");
    let d = decimal_string(c.draws);
    s.append(d.as_str());
    s.append(" | ");
    let u = decimal_string(c.unfinished);
    s.append(u.as_str());
    s.append(" | ");
    let t = decimal_string(c.total);
    s.append(t.as_str());
    s
}

/// Lines joined with newlines.
fn lines_block(lines: &Vec<String>) -> (s: String)
    ensures
        s@ == joined(texts(lines@), "\n"@),
{
    proof {
        assert(lines@.map_values(|p: String| p@) =~= texts(lines@));
    }
    join_with(lines.as_slice(), "\n")
}

/// A keyed header's two lines.
fn header_lines(key: &str) -> (v: Vec<String>)
    ensures
        v@.len() == 2,
        v@[0]@ == keyed_header(key@)[0],
        v@[1]@ == keyed_header(key@)[1],
{
    proof {
        reveal_strlit("| ");
        reveal_strlit(" | wins | draws | unfinished | total |");
        reveal_strlit("| --- | --- | --- | --- | --- |");
    }
    let mut h = String::from_str("| ");
    h.append(key);
    h.append(" | wins | draws | unfinished | total |");
    vec![h, String::from_str("| --- | --- | --- | --- | --- |")]
}

/// A table keyed by number with outcome counts.
fn render_numbered<G: GameDomain>(key: &str, t: &Vec<(usize, OutcomeCounts<G::Player>)>) -> (s: String)
    ensures
        s@ == joined(numbered_lines::<G>(key@, t@), "\n"@),
{
    let mut lines = header_lines(key);
    let ghost head = keyed_header(key@);

    let mut k: usize = 0;
    while k < t.len()
        invariant
            k <= t@.len(),
            head == keyed_header(key@),
            lines@.len() == 2 + k,
            lines@[0]@ == head[0],
            lines@[1]@ == head[1],
            forall|i: int| 2 <= i < 2 + k ==> (#[trigger] lines@[i])@ == row2(decimal(t@[i - 2].0 as nat), outcome_cells::<G>(t@[i - 2].1)),
        decreases t@.len() - k,
    {
        let d = decimal_string(t[k].0);
        let o = render_outcome::<G>(&t[k].1);
        lines.push(cells2(d.as_str(), o.as_str()));
        k = k + 1;
    }
    proof {
        assert(texts(lines@) =~= numbered_lines::<G>(key@, t@));
    }
    lines_block(&lines)
}

/// Renders the `## Summary` section of a run from its counts and the caller's text cells.
pub fn render_summary_section<G: GameDomain>(counts: &SummaryCounts<G::Player>, cells: &SummaryCells) -> (s: String)
    ensures
        s@ == summary_markdown::<G>(*counts, *cells),
{
    proof {
        reveal_strlit("## Summary");
        reveal_strlit("### Diversity");
        reveal_strlit("Diversity pass: ");
        reveal_strlit("- ");
        reveal_strlit("### Outcomes");
        reveal_strlit("### By pairing");
        reveal_strlit("### By length");
        reveal_strlit("### By ply");
        reveal_strlit("### By first-action orbit");
        reveal_strlit("| metric | value |");
        reveal_strlit("| --- | --- |");
        reveal_strlit("| metric | value | threshold | pass |");
        reveal_strlit("| --- | --- | --- | --- |");
        reveal_strlit("| outcome | games |");
        reveal_strlit("| length | games |");
        reveal_strlit("\n");
        reveal_strlit("\n\n");
    }
    let c = counts;
    let mut blocks: Vec<String> = Vec::new();
    blocks.push(String::from_str("## Summary"));
    let metric = vec![
        String::from_str("| metric | value |"),
        String::from_str("| --- | --- |"),
        cells2("run_id", cells.run_id.as_str()),
        cells2("game", cells.game.as_str()),
        count_row("games", c.games),
        count_row("positions", c.positions),
        count_row("distinct_games", c.distinct_games),
        cells2("distinct_game_fraction", cells.distinct_game_fraction.as_str()),
        count_row("distinct_positions", c.distinct_positions),
        count_row("distinct_canonical_positions", c.distinct_canonical_positions),
        cells2("known_canonical_positions", cells.known_canonical_positions.as_str()),
        cells2("canonical_coverage", cells.canonical_coverage.as_str()),
        count_row("decisive_games", c.decisive_games),
        cells2("decisive_fraction", cells.decisive_fraction.as_str()),
    ];
    proof {
        reveal_strlit("run_id");
        reveal_strlit("game");
        reveal_strlit("games");
        reveal_strlit("positions");
        reveal_strlit("distinct_games");
        reveal_strlit("distinct_game_fraction");
        reveal_strlit("distinct_positions");
        reveal_strlit("distinct_canonical_positions");
        reveal_strlit("known_canonical_positions");
        reveal_strlit("canonical_coverage");
        reveal_strlit("decisive_games");
        reveal_strlit("decisive_fraction");
        assert(texts(metric@) =~= metric_lines(*c, *cells));
    }
    blocks.push(lines_block(&metric));
    blocks.push(String::from_str("### Diversity"));
    let diversity = vec![
        String::from_str("| metric | value | threshold | pass |"),
        String::from_str("| --- | --- | --- | --- |"),
        cells2("canonical_coverage", cells.coverage_check.as_str()),
        cells2("decisive_fraction", cells.decisive_check.as_str()),
        cells2("distinct_game_fraction", cells.distinct_check.as_str()),
    ];
    proof {
        assert(texts(diversity@) =~= diversity_lines(*cells));
    }
    blocks.push(lines_block(&diversity));
    let mut pass = String::from_str("Diversity pass: ");
    pass.append(cells.diversity_pass.as_str());
    blocks.push(pass);
    let ghost failures = texts(cells.diversity_failures@);
    if cells.diversity_failures.len() > 0 {
        let mut lines: Vec<String> = Vec::new();
        let mut k: usize = 0;
        while k < cells.diversity_failures.len()
            invariant
                k <= cells.diversity_failures@.len(),
                failures == texts(cells.diversity_failures@),
                lines@.len() == k,
                forall|j: int| 0 <= j < k ==> (#[trigger] lines@[j])@ == "- "@ + failures[j],
            decreases cells.diversity_failures@.len() - k,
        {
            let mut l = String::from_str("- ");
            l.append(cells.diversity_failures[k].as_str());
            lines.push(l);
            k = k + 1;
        }
        proof {
            assert(texts(lines@) =~= Seq::new(failures.len(), |j: int| "- "@ + failures[j]));
        }
        blocks.push(lines_block(&lines));
    }
    let ghost before_outcomes = texts(blocks@);
    blocks.push(String::from_str("### Outcomes"));
    let mut outcome: Vec<String> = vec![String::from_str("| outcome | games |"), String::from_str("| --- | --- |")];
    let mut k: usize = 0;
    while k < c.outcomes.wins.len()
        invariant
            k <= c.outcomes.wins@.len(),
            outcome@.len() == 2 + k,
            outcome@[0]@ == "| outcome | games |"@,
            outcome@[1]@ == "| --- | --- |"@,
            forall|i: int|
                2 <= i < 2 + k ==> (#[trigger] outcome@[i])@ == row2(
                    "win "@ + G::spec_player_label(c.outcomes.wins@[i - 2].0),
                    decimal(c.outcomes.wins@[i - 2].1 as nat),
                ),
        decreases c.outcomes.wins@.len() - k,
    {
        proof {
            reveal_strlit("win ");
        }
        let mut w = String::from_str("win ");
        let label = G::player_label(&c.outcomes.wins[k].0);
        w.append(label.as_str());
        outcome.push(count_row(w.as_str(), c.outcomes.wins[k].1));
        k = k + 1;
    }
    proof {
        reveal_strlit("draw");
        reveal_strlit("unfinished");
        reveal_strlit("total");
    }
    outcome.push(count_row("draw", c.outcomes.draws));
    outcome.push(count_row("unfinished", c.outcomes.unfinished));
    outcome.push(count_row("total", c.outcomes.total));
    proof {
        assert(texts(outcome@) =~= outcome_lines::<G>(c.outcomes));
    }
    blocks.push(lines_block(&outcome));
    blocks.push(String::from_str("### By pairing"));
    let mut pairing = header_lines("pairing");
    proof {
        reveal_strlit("pairing");
    }
    let mut k: usize = 0;
    while k < c.by_pairing.len()
        invariant
            k <= c.by_pairing@.len(),
            pairing@.len() == 2 + k,
            pairing@[0]@ == keyed_header("pairing"@)[0],
            pairing@[1]@ == keyed_header("pairing"@)[1],
            forall|i: int|
                2 <= i < 2 + k ==> (#[trigger] pairing@[i])@ == row2(c.by_pairing@[i - 2].0@, outcome_cells::<G>(c.by_pairing@[i - 2].1)),
        decreases c.by_pairing@.len() - k,
    {
        let o = render_outcome::<G>(&c.by_pairing[k].1);
        pairing.push(cells2(c.by_pairing[k].0.as_str(), o.as_str()));
        k = k + 1;
    }
    proof {
        assert(texts(pairing@) =~= pairing_lines::<G>(c.by_pairing@));
    }
    blocks.push(lines_block(&pairing));
    blocks.push(String::from_str("### By length"));
    let mut length: Vec<String> = vec![String::from_str("| length | games |"), String::from_str("| --- | --- |")];
    let mut k: usize = 0;
    while k < c.by_length.len()
        invariant
            k <= c.by_length@.len(),
            length@.len() == 2 + k,
            length@[0]@ == "| length | games |"@,
            length@[1]@ == "| --- | --- |"@,
            forall|i: int|
                2 <= i < 2 + k ==> (#[trigger] length@[i])@ == row2(decimal(c.by_length@[i - 2].0 as nat), decimal(c.by_length@[i - 2].1 as nat)),
        decreases c.by_length@.len() - k,
    {
        let d = decimal_string(c.by_length[k].0);
        length.push(count_row(d.as_str(), c.by_length[k].1));
        k = k + 1;
    }
    proof {
        assert(texts(length@) =~= length_lines(c.by_length@));
    }
    blocks.push(lines_block(&length));
    blocks.push(String::from_str("### By ply"));
    proof {
        reveal_strlit("ply");
        reveal_strlit("orbit");
    }
    blocks.push(render_numbered::<G>("ply", &c.by_ply));
    blocks.push(String::from_str("### By first-action orbit"));
    blocks.push(render_numbered::<G>("orbit", &c.by_first_action_orbit));
    proof {
        assert(texts(blocks@) =~= summary_blocks::<G>(*c, *cells));
        assert(blocks@.map_values(|p: String| p@) =~= texts(blocks@));
    }
    let mut s = join_with(blocks.as_slice(), "\n\n");
    s.append("\n");
    s
}

/// Joining two or more parts starts with the first part and the separator.
proof fn lemma_joined_prefix(parts: Seq<Seq<char>>, sep: Seq<char>)
    requires
        parts.len() >= 2,
    ensures
        joined(parts, sep).len() >= parts[0].len() + sep.len(),
        joined(parts, sep).take(parts[0].len() + sep.len() as int) == parts[0] + sep,
    decreases parts.len(),
{
    let k = parts[0].len() + sep.len() as int;
    if parts.len() == 2 {
        assert(parts.drop_last().len() == 1);
        assert(parts.drop_last()[0] == parts[0]);
        assert(joined(parts.drop_last(), sep) == parts[0]);
        assert(joined(parts, sep) == parts[0] + sep + parts[1]);
        assert(joined(parts, sep).take(k) =~= parts[0] + sep);
    } else {
        let prev = parts.drop_last();
        lemma_joined_prefix(prev, sep);
        assert(prev[0] == parts[0]);
        let j = joined(parts, sep);
        assert(j == joined(prev, sep) + sep + parts.last());
        assert(j.take(k) =~= joined(prev, sep).take(k));
    }
}

/// Joining one or more parts ends with the last part.
proof fn lemma_joined_suffix(parts: Seq<Seq<char>>, sep: Seq<char>)
    requires
        parts.len() >= 1,
    ensures
        joined(parts, sep).len() >= parts.last().len(),
        joined(parts, sep).skip(joined(parts, sep).len() - parts.last().len()) == parts.last(),
{
    let j = joined(parts, sep);
    if parts.len() == 1 {
        assert(j.skip(0) =~= j);
    } else {
        assert(j == joined(parts.drop_last(), sep) + sep + parts.last());
        assert(j.skip(j.len() - parts.last().len()) =~= parts.last());
    }
}

/// A row of cells ends with a closing bar.
proof fn lemma_row2_last(a: Seq<char>, b: Seq<char>)
    ensures
        row2(a, b).len() >= 1 && row2(a, b).last() == '|',
{
    reveal_strlit(" |");
}

/// The last character of a keyed table's text is the closing bar of its last row.
proof fn lemma_table_ends_with_bar<G: GameDomain>(key: Seq<char>, t: Seq<(usize, OutcomeCounts<G::Player>)>)
    ensures
        joined(numbered_lines::<G>(key, t), "\n"@).len() >= 1,
        joined(numbered_lines::<G>(key, t), "\n"@).last() == '|',
{
    reveal_strlit("| --- | --- | --- | --- | --- |");
    let lines = numbered_lines::<G>(key, t);
    assert(lines.len() == 2 + t.len());
    lemma_joined_suffix(lines, "\n"@);
    let l = lines.last();
    if t.len() == 0 {
        assert(l == "| --- | --- | --- | --- | --- |"@);
    } else {
        let k = t.len() - 1;
        assert(l == row2(decimal(t[k].0 as nat), outcome_cells::<G>(t[k].1)));
        lemma_row2_last(decimal(t[k].0 as nat), outcome_cells::<G>(t[k].1));
    }
    let s = joined(lines, "\n"@);
    assert(s.last() == s.skip(s.len() - l.len()).last());
}

/// The section's blocks open with its heading and close with the first-action orbit table.
proof fn lemma_blocks_shape<G: GameDomain>(c: SummaryCounts<G::Player>, cells: SummaryCells)
    ensures
        summary_blocks::<G>(c, cells).len() >= 2,
        summary_blocks::<G>(c, cells)[0] == "## Summary"@,
        summary_blocks::<G>(c, cells).last() == joined(numbered_lines::<G>("orbit"@, c.by_first_action_orbit@), "\n"@),
{
}

/// Text joined from blocks of which the first is the heading, and the last ends with a bar,
/// then closed by a newline.
proof fn lemma_layout_of(blocks: Seq<Seq<char>>, s: Seq<char>)
    requires
        blocks.len() >= 2,
        blocks[0] == "## Summary"@,
        blocks.last().len() >= 1,
        blocks.last().last() == '|',
        s == joined(blocks, "\n\n"@) + "\n"@,
    ensures
        s.len() >= 13,
        s.take(12) == "## Summary\n\n"@,
        s.last() == '\n',
        s[s.len() - 2] == '|',
{
    reveal_strlit("## Summary");
    reveal_strlit("\n\n");
    reveal_strlit("\n");
    reveal_strlit("## Summary\n\n");
    lemma_joined_prefix(blocks, "\n\n"@);
    lemma_joined_suffix(blocks, "\n\n"@);
    let j = joined(blocks, "\n\n"@);
    let last = blocks.last();
    assert(s.take(12) =~= j.take(12));
    assert(j.take(12) =~= "## Summary\n\n"@);
    assert(j.last() == j.skip(j.len() - last.len()).last());
    assert(s[s.len() - 2] == j.last());
}

/// The `## Summary` section opens with its heading and a blank line, and ends with the last
/// row of the first-action orbit table and one newline, so never with a blank line.
pub proof fn lemma_summary_layout<G: GameDomain>(c: SummaryCounts<G::Player>, cells: SummaryCells)
    ensures
        summary_markdown::<G>(c, cells).len() >= 13,
        summary_markdown::<G>(c, cells).take(12) == "## Summary\n\n"@,
        summary_markdown::<G>(c, cells).last() == '\n',
        summary_markdown::<G>(c, cells)[summary_markdown::<G>(c, cells).len() - 2] == '|',
{
    lemma_blocks_shape::<G>(c, cells);
    lemma_table_ends_with_bar::<G>("orbit"@, c.by_first_action_orbit@);
    lemma_layout_of(summary_blocks::<G>(c, cells), summary_markdown::<G>(c, cells));
}

/// Joining one more part adds the separator and the part.
proof fn lemma_joined_push(parts: Seq<Seq<char>>, x: Seq<char>, sep: Seq<char>)
    requires
        parts.len() >= 1,
    ensures
        joined(parts.push(x), sep) == joined(parts, sep) + sep + x,
{
    assert(parts.push(x).drop_last() =~= parts);
}

/// Joining parts is joining a first run of them, the separator, and joining the rest.
proof fn lemma_joined_split(parts: Seq<Seq<char>>, k: int, sep: Seq<char>)
    requires
        1 <= k < parts.len(),
    ensures
        joined(parts, sep) == joined(parts.take(k), sep) + sep + joined(parts.skip(k), sep),
    decreases parts.len(),
{
    if parts.len() == k + 1 {
        assert(parts.skip(k) =~= seq![parts[k]]);
        assert(parts.take(k).push(parts[k]) =~= parts);
        lemma_joined_push(parts.take(k), parts[k], sep);
    } else {
        let prev = parts.drop_last();
        lemma_joined_split(prev, k, sep);
        assert(prev.take(k) =~= parts.take(k));
        assert(prev.push(parts.last()) =~= parts);
        lemma_joined_push(prev, parts.last(), sep);
        assert(parts.skip(k) =~= prev.skip(k).push(parts.last()));
        lemma_joined_push(prev.skip(k), parts.last(), sep);
        assert(joined(parts, sep) =~= joined(parts.take(k), sep) + sep + joined(parts.skip(k), sep));
    }
}

/// Two parts joined: the first, the separator, the second.
proof fn lemma_joined_two(a: Seq<char>, b: Seq<char>, sep: Seq<char>)
    ensures
        joined(seq![a, b], sep) == a + sep + b,
{
    assert(seq![a, b].drop_last() =~= seq![a]);
    assert(seq![a].len() == 1 && seq![a][0] == a);
    assert(joined(seq![a], sep) == a);
    assert(seq![a, b].last() == b);
}

/// The sections after the diversity blocks, joined: each heading, a blank line, its table.
pub open spec fn tables_text<G: GameDomain>(c: SummaryCounts<G::Player>) -> Seq<char> {
    let nl = "\n"@;
    "### Outcomes\n\n"@ + joined(outcome_lines::<G>(c.outcomes), nl) + "\n\n### By pairing\n\n"@ + joined(
        pairing_lines::<G>(c.by_pairing@),
        nl,
    ) + "\n\n### By length\n\n"@ + joined(length_lines(c.by_length@), nl) + "\n\n### By ply\n\n"@ + joined(
        numbered_lines::<G>("ply"@, c.by_ply@),
        nl,
    ) + "\n\n### By first-action orbit\n\n"@ + joined(numbered_lines::<G>("orbit"@, c.by_first_action_orbit@), nl)
}

/// Joining two or more parts: the first, the separator, the rest joined.
proof fn lemma_joined_cons(parts: Seq<Seq<char>>, sep: Seq<char>)
    requires
        parts.len() >= 2,
    ensures
        joined(parts, sep) == parts[0] + sep + joined(parts.skip(1), sep),
{
    lemma_joined_split(parts, 1, sep);
    assert(parts.take(1).len() == 1);
    assert(joined(parts.take(1), sep) == parts[0]);
}

/// The failed diversity checks, each on its own line after a blank line, or nothing.
pub open spec fn failures_text(cells: SummaryCells) -> Seq<char> {
    let failures = texts(cells.diversity_failures@);
    if failures.len() == 0 {
        seq![]
    } else {
        "\n\n"@ + joined(Seq::new(failures.len(), |k: int| "- "@ + failures[k]), "\n"@)
    }
}

proof fn lemma_joined_five(a0: Seq<char>, a1: Seq<char>, a2: Seq<char>, a3: Seq<char>, a4: Seq<char>, sep: Seq<char>)
    ensures
        joined(seq![a0, a1, a2, a3, a4], sep) == a0 + sep + a1 + sep + a2 + sep + a3 + sep + a4,
{
    let l = seq![a0, a1, a2, a3, a4];
    lemma_joined_cons(l.skip(0), sep);
    assert(l.skip(0).skip(1) =~= l.skip(1));
    lemma_joined_cons(l.skip(1), sep);
    assert(l.skip(1).skip(1) =~= l.skip(2));
    lemma_joined_cons(l.skip(2), sep);
    assert(l.skip(2).skip(1) =~= l.skip(3));
    lemma_joined_cons(l.skip(3), sep);
    assert(l.skip(3).skip(1) =~= l.skip(4));
    assert(l.skip(4) =~= seq![a4]);
    assert(l.skip(0) =~= l);
    assert(joined(l, sep) =~= a0 + sep + a1 + sep + a2 + sep + a3 + sep + a4);
}

proof fn lemma_joined_ten(a0: Seq<char>, a1: Seq<char>, a2: Seq<char>, a3: Seq<char>, a4: Seq<char>, a5: Seq<char>, a6: Seq<char>, a7: Seq<char>, a8: Seq<char>, a9: Seq<char>, sep: Seq<char>)
    ensures
        joined(seq![a0, a1, a2, a3, a4, a5, a6, a7, a8, a9], sep) == a0 + sep + a1 + sep + a2 + sep + a3 + sep + a4 + sep + a5 + sep + a6 + sep + a7 + sep + a8 + sep + a9,
{
    let l = seq![a0, a1, a2, a3, a4, a5, a6, a7, a8, a9];
    lemma_joined_split(l, 5, sep);
    assert(l.take(5) =~= seq![a0, a1, a2, a3, a4]);
    assert(l.skip(5) =~= seq![a5, a6, a7, a8, a9]);
    lemma_joined_five(a0, a1, a2, a3, a4, sep);
    lemma_joined_five(a5, a6, a7, a8, a9, sep);
    let x = a0 + sep + a1 + sep + a2 + sep + a3 + sep + a4;
    let y6 = a5 + sep + a6;
    let y7 = y6 + sep + a7;
    let y8 = y7 + sep + a8;
    let y9 = y8 + sep + a9;
    assert(x + sep + y6 =~= x + sep + a5 + sep + a6);
    assert(x + sep + y7 =~= (x + sep + y6) + sep + a7);
    assert(x + sep + y8 =~= (x + sep + y7) + sep + a8);
    assert(x + sep + y9 =~= (x + sep + y8) + sep + a9);
}

/// The `## Summary` section, spelled out: its heading, a blank line and the metric table; the
/// `### Diversity` heading, a blank line, the threshold table and the pass line, with the failed
/// checks below it; then `### Outcomes`, `### By pairing`, `### By length`, `### By ply` and
/// `### By first-action orbit`, in that order, each followed by a blank line and its table and
/// separated from what comes before by a blank line; and one final newline.
#[verifier::rlimit(100)]
pub proof fn lemma_summary_sections<G: GameDomain>(c: SummaryCounts<G::Player>, cells: SummaryCells)
    ensures
        summary_markdown::<G>(c, cells) == "## Summary\n\n"@ + joined(metric_lines(c, cells), "\n"@)
            + "\n\n### Diversity\n\n"@ + joined(diversity_lines(cells), "\n"@) + "\n\nDiversity pass: "@
            + cells.diversity_pass@ + failures_text(cells) + "\n\n"@ + tables_text::<G>(c) + "\n"@,
{
    let sep = "\n\n"@;
    let nl = "\n"@;
    let m = joined(metric_lines(c, cells), nl);
    let d = joined(diversity_lines(cells), nl);
    let pass = "Diversity pass: "@ + cells.diversity_pass@;
    let front = seq!["## Summary"@, m, "### Diversity"@, d, pass];
    let back = seq![
        "### Outcomes"@,
        joined(outcome_lines::<G>(c.outcomes), nl),
        "### By pairing"@,
        joined(pairing_lines::<G>(c.by_pairing@), nl),
        "### By length"@,
        joined(length_lines(c.by_length@), nl),
        "### By ply"@,
        joined(numbered_lines::<G>("ply"@, c.by_ply@), nl),
        "### By first-action orbit"@,
        joined(numbered_lines::<G>("orbit"@, c.by_first_action_orbit@), nl),
    ];
    lemma_joined_five(front[0], front[1], front[2], front[3], front[4], sep);
    assert(front =~= seq![front[0], front[1], front[2], front[3], front[4]]);
    lemma_joined_ten(back[0], back[1], back[2], back[3], back[4], back[5], back[6], back[7], back[8], back[9], sep);
    assert(back =~= seq![back[0], back[1], back[2], back[3], back[4], back[5], back[6], back[7], back[8], back[9]]);
    lemma_summary_tables::<G>(c, back);
    lemma_summary_front(c, cells, front);
    let b = summary_blocks::<G>(c, cells);
    let failures = texts(cells.diversity_failures@);
    lemma_joined_split(b, 5, sep);
    assert(b.take(5) =~= front);
    if failures.len() == 0 {
        assert(b.skip(5) =~= back);
    } else {
        let rest = b.skip(5);
        lemma_joined_cons(rest, sep);
        assert(rest.skip(1) =~= back);
    }
    reveal_strlit("\n");
    reveal_strlit("\n\n");
    assert(summary_markdown::<G>(c, cells) =~= "## Summary\n\n"@ + m + "\n\n### Diversity\n\n"@ + d
        + "\n\nDiversity pass: "@ + cells.diversity_pass@ + failures_text(cells) + "\n\n"@ + tables_text::<G>(c) + "\n"@);
}

/// The section's front blocks joined, with their literals spelled out.
proof fn lemma_summary_front<P>(c: SummaryCounts<P>, cells: SummaryCells, front: Seq<Seq<char>>)
    requires
        front == seq![
            "## Summary"@,
            joined(metric_lines(c, cells), "\n"@),
            "### Diversity"@,
            joined(diversity_lines(cells), "\n"@),
            "Diversity pass: "@ + cells.diversity_pass@,
        ],
    ensures
        front[0] + "\n\n"@ + front[1] + "\n\n"@ + front[2] + "\n\n"@ + front[3] + "\n\n"@ + front[4]
            == "## Summary\n\n"@ + joined(metric_lines(c, cells), "\n"@) + "\n\n### Diversity\n\n"@ + joined(
            diversity_lines(cells),
            "\n"@,
        ) + "\n\nDiversity pass: "@ + cells.diversity_pass@,
{
    reveal_strlit("## Summary");
    reveal_strlit("### Diversity");
    reveal_strlit("Diversity pass: ");
    reveal_strlit("\n\n");
    reveal_strlit("## Summary\n\n");
    reveal_strlit("\n\n### Diversity\n\n");
    reveal_strlit("\n\nDiversity pass: ");
    assert(front[0] + "\n\n"@ + front[1] + "\n\n"@ + front[2] + "\n\n"@ + front[3] + "\n\n"@ + front[4]
        =~= "## Summary\n\n"@ + joined(metric_lines(c, cells), "\n"@) + "\n\n### Diversity\n\n"@ + joined(
        diversity_lines(cells),
        "\n"@,
    ) + "\n\nDiversity pass: "@ + cells.diversity_pass@);
}

/// The section's table blocks joined, with their headings spelled out.
proof fn lemma_summary_tables<G: GameDomain>(c: SummaryCounts<G::Player>, back: Seq<Seq<char>>)
    requires
        back.len() == 10,
        back[0] == "### Outcomes"@,
        back[1] == joined(outcome_lines::<G>(c.outcomes), "\n"@),
        back[2] == "### By pairing"@,
        back[3] == joined(pairing_lines::<G>(c.by_pairing@), "\n"@),
        back[4] == "### By length"@,
        back[5] == joined(length_lines(c.by_length@), "\n"@),
        back[6] == "### By ply"@,
        back[7] == joined(numbered_lines::<G>("ply"@, c.by_ply@), "\n"@),
        back[8] == "### By first-action orbit"@,
        back[9] == joined(numbered_lines::<G>("orbit"@, c.by_first_action_orbit@), "\n"@),
    ensures
        back[0] + "\n\n"@ + back[1] + "\n\n"@ + back[2] + "\n\n"@ + back[3] + "\n\n"@ + back[4] + "\n\n"@
            + back[5] + "\n\n"@ + back[6] + "\n\n"@ + back[7] + "\n\n"@ + back[8] + "\n\n"@ + back[9]
            == tables_text::<G>(c),
{
    let h = "\n\n"@;
    let t1 = back[0] + h + back[1];
    assert(t1 =~= "### Outcomes\n\n"@ + back[1]) by {
        reveal_strlit("### Outcomes");
        reveal_strlit("\n\n");
        reveal_strlit("### Outcomes\n\n");
    }
    let t3 = t1 + h + back[2] + h + back[3];
    assert(t3 =~= t1 + "\n\n### By pairing\n\n"@ + back[3]) by {
        reveal_strlit("### By pairing");
        reveal_strlit("\n\n");
        reveal_strlit("\n\n### By pairing\n\n");
    }
    let t5 = t3 + h + back[4] + h + back[5];
    assert(t5 =~= t3 + "\n\n### By length\n\n"@ + back[5]) by {
        reveal_strlit("### By length");
        reveal_strlit("\n\n");
        reveal_strlit("\n\n### By length\n\n");
    }
    let t7 = t5 + h + back[6] + h + back[7];
    assert(t7 =~= t5 + "\n\n### By ply\n\n"@ + back[7]) by {
        reveal_strlit("### By ply");
        reveal_strlit("\n\n");
        reveal_strlit("\n\n### By ply\n\n");
    }
    let t9 = t7 + h + back[8] + h + back[9];
    assert(t9 =~= t7 + "\n\n### By first-action orbit\n\n"@ + back[9]) by {
        reveal_strlit("### By first-action orbit");
        reveal_strlit("\n\n");
        reveal_strlit("\n\n### By first-action orbit\n\n");
    }
}

} // verus!
