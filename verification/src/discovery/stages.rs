//! The corpus pipeline's stages and the selection of a subset of them: whatever order they are
//! listed in, selected stages run in the canonical order `generate`, `annotate`, `analyze`,
//! `report`.

use vstd::prelude::*;
use vstd::string::*;
use crate::discovery::config::{texts, CorpusError};
use crate::framework::text::{join_with, joined, text_eq};

verus! {

/// A stage of the corpus pipeline.
#[derive(Clone, Copy, Debug, PartialEq, Eq)]
pub enum Stage {
    /// Play the sweep and write the corpus.
    Generate,
    /// Solve the corpus's positions.
    Annotate,
    /// Run the analyzers.
    Analyze,
    /// Write the Markdown report.
    Report,
}

/// The stages in canonical order.
pub open spec fn canonical_stages() -> Seq<Stage> {
    seq![Stage::Generate, Stage::Annotate, Stage::Analyze, Stage::Report]
}

/// A stage's name.
pub open spec fn stage_name(s: Stage) -> Seq<char> {
    match s {
        Stage::Generate => "generate"@,
        Stage::Annotate => "annotate"@,
        Stage::Analyze => "analyze"@,
        Stage::Report => "report"@,
    }
}

/// The names of `stages`, in order.
pub open spec fn stage_names(stages: Seq<Stage>) -> Seq<Seq<char>> {
    stages.map_values(|s: Stage| stage_name(s))
}

/// The canonical stages from the `k`-th on whose names are listed in `names`, in canonical order.
pub open spec fn selected_from(names: Seq<Seq<char>>, k: int) -> Seq<Stage>
    decreases 4 - k,
{
    if k < 0 || k >= 4 {
        seq![]
    } else {
        let s = canonical_stages()[k];
        let rest = selected_from(names, k + 1);
        if names.contains(stage_name(s)) {
            seq![s] + rest
        } else {
            rest
        }
    }
}

/// The stages listed in `names`, in canonical order.
pub open spec fn selected_stages(names: Seq<Seq<char>>) -> Seq<Stage> {
    selected_from(names, 0)
}

/// Position of the first of the first `n` names that names no stage, if any.
pub open spec fn first_unknown(names: Seq<Seq<char>>, n: int) -> Option<int>
    decreases n,
{
    if n <= 0 {
        None
    } else {
        match first_unknown(names, n - 1) {
            Some(i) => Some(i),
            None => if stage_names(canonical_stages()).contains(names[n - 1]) {
                None
            } else {
                Some(n - 1)
            },
        }
    }
}

/// The error for a listed name that names no stage:
/// ``unknown stage `{name}`; stages are: generate, annotate, analyze, report``.
pub open spec fn unknown_stage_message(name: Seq<char>) -> Seq<char> {
    "unknown stage `"@ + name + "`; stages are: "@ + joined(stage_names(canonical_stages()), ", "@)
}

/// The stage's name.
pub fn stage_name_of(s: Stage) -> (n: &'static str)
    ensures
        n@ == stage_name(s),
{
    match s {
        Stage::Generate => "generate",
        Stage::Annotate => "annotate",
        Stage::Analyze => "analyze",
        Stage::Report => "report",
    }
}

/// The stages in canonical order.
pub fn all_stages() -> (v: Vec<Stage>)
    ensures
        v@ == canonical_stages(),
{
    let v = vec![Stage::Generate, Stage::Annotate, Stage::Analyze, Stage::Report];
    proof {
        assert(v@ =~= canonical_stages());
    }
    v
}

/// The stage named `name`, if any.
fn stage_named(name: &str) -> (r: Option<Stage>)
    ensures
        r matches Some(s) ==> stage_name(s) == name@ && canonical_stages().contains(s),
        r is None <==> !stage_names(canonical_stages()).contains(name@),
{
    let all = all_stages();
    let mut k: usize = 0;
    while k < all.len()
        invariant
            all@ == canonical_stages(),
            k <= all@.len(),
            forall|j: int| 0 <= j < k ==> stage_name(#[trigger] all@[j]) != name@,
        decreases all@.len() - k,
    {
        let s = all[k];
        if text_eq(stage_name_of(s), name) {
            proof {
                assert(canonical_stages()[k as int] == s);
                assert(stage_names(canonical_stages())[k as int] == name@);
            }
            return Some(s);
        }
        k = k + 1;
    }
    proof {
        if stage_names(canonical_stages()).contains(name@) {
            let j = choose|j: int| 0 <= j < 4 && stage_names(canonical_stages())[j] == name@;
            assert(stage_name(all@[j]) == name@);
        }
    }
    None
}

/// The stages `listed` names, in canonical order whatever the order of `listed`; fails on the
/// first listed name that names no stage.
pub fn select_stages(listed: &[String]) -> (r: Result<Vec<Stage>, CorpusError>)
    ensures
        r is Err <==> first_unknown(texts(listed@), listed@.len() as int) is Some,
        r matches Err(e) ==> e matches CorpusError::Config(m) && m@ == unknown_stage_message(
            texts(listed@)[first_unknown(texts(listed@), listed@.len() as int)->0],
        ),
        r matches Ok(v) ==> v@ == selected_stages(texts(listed@)),
{
    let ghost names = texts(listed@);
    let mut i: usize = 0;
    while i < listed.len()
        invariant
            names == texts(listed@),
            i <= listed@.len(),
            first_unknown(names, i as int) is None,
        decreases listed@.len() - i,
    {
        if stage_named(listed[i].as_str()).is_none() {
            proof {
                lemma_first_unknown_stays(names, i as int + 1, listed@.len() as int);
            }
            return Err(unknown_stage(listed[i].as_str()));
        }
        i = i + 1;
    }
    let all = all_stages();
    let mut v: Vec<Stage> = Vec::new();
    let mut k: usize = all.len();
    proof {
        assert(v@ =~= selected_from(names, 4));
    }
    while k > 0
        invariant
            names == texts(listed@),
            all@ == canonical_stages(),
            k <= 4,
            v@ == selected_from(names, k as int),
        decreases k,
    {
        k = k - 1;
        let s = all[k];
        if listed_contains(listed, stage_name_of(s)) {
            let mut w = vec![s];
            w.append(&mut v);
            v = w;
        }
        proof {
            assert(canonical_stages()[k as int] == s);
        }
    }
    Ok(v)
}

/// Once found among the first `n` names, the first unknown name is found among more.
proof fn lemma_first_unknown_stays(names: Seq<Seq<char>>, n: int, m: int)
    requires
        0 <= n <= m,
        first_unknown(names, n) is Some,
    ensures
        first_unknown(names, m) == first_unknown(names, n),
    decreases m - n,
{
    if m > n {
        lemma_first_unknown_stays(names, n, m - 1);
    }
}

/// Whether `name` is among `listed`.
fn listed_contains(listed: &[String], name: &str) -> (r: bool)
    ensures
        r == texts(listed@).contains(name@),
{
    let mut i: usize = 0;
    while i < listed.len()
        invariant
            i <= listed@.len(),
            forall|j: int| 0 <= j < i ==> texts(listed@)[j] != name@,
        decreases listed@.len() - i,
    {
        if text_eq(listed[i].as_str(), name) {
            proof {
                assert(texts(listed@)[i as int] == name@);
            }
            return true;
        }
        i = i + 1;
    }
    false
}

/// ``unknown stage `{name}`; stages are: generate, annotate, analyze, report``.
fn unknown_stage(name: &str) -> (e: CorpusError)
    ensures
        e matches CorpusError::Config(m) && m@ == unknown_stage_message(name@),
{
    proof {
        reveal_strlit("unknown stage `");
        reveal_strlit("`; stages are: ");
        reveal_strlit(", ");
    }
    let all = all_stages();
    let mut names: Vec<String> = Vec::new();
    let mut k: usize = 0;
    while k < all.len()
        invariant
            all@ == canonical_stages(),
            k <= all@.len(),
            texts(names@) == stage_names(all@.take(k as int)),
        decreases all@.len() - k,
    {
        let ghost prev = names@;
        let t = String::from_str(stage_name_of(all[k]));
        names.push(t);
        proof {
            let x = all@[k as int];
            assert(texts(names@) =~= texts(prev).push(stage_name(x)));
            assert(all@.take(k as int + 1) =~= all@.take(k as int).push(x));
            assert(stage_names(all@.take(k as int + 1)) =~= stage_names(all@.take(k as int)).push(stage_name(x)));
        }
        k = k + 1;
    }
    proof {
        assert(all@.take(4) =~= all@);
    }
    let mut m = String::from_str("unknown stage `");
    m.append(name);
    m.append("`; stages are: ");
    let list = join_with(names.as_slice(), ", ");
    m.append(list.as_str());
    CorpusError::Config(m)
}

/// The names of `stages`, comma-separated, as a run reports them: `stages=generate,annotate`.
pub fn stage_list(stages: &[Stage]) -> (s: String)
    ensures
        s@ == joined(stage_names(stages@), ","@),
{
    let mut names: Vec<String> = Vec::new();
    let mut k: usize = 0;
    while k < stages.len()
        invariant
            k <= stages@.len(),
            texts(names@) == stage_names(stages@.take(k as int)),
        decreases stages@.len() - k,
    {
        let ghost prev = names@;
        let t = String::from_str(stage_name_of(stages[k]));
        names.push(t);
        proof {
            let x = stages@[k as int];
            assert(texts(names@) =~= texts(prev).push(stage_name(x)));
            assert(stages@.take(k as int + 1) =~= stages@.take(k as int).push(x));
            assert(stage_names(stages@.take(k as int + 1)) =~= stage_names(stages@.take(k as int)).push(stage_name(x)));
        }
        k = k + 1;
    }
    proof {
        assert(stages@.take(stages@.len() as int) =~= stages@);
        reveal_strlit(",");
    }
    join_with(names.as_slice(), ",")
}

/// Which stages run depends on which names are listed, not on their order or repetition.
pub proof fn lemma_stage_order_ignores_listing(a: Seq<Seq<char>>, b: Seq<Seq<char>>)
    requires
        forall|x: Seq<char>| a.contains(x) <==> b.contains(x),
    ensures
        selected_stages(a) == selected_stages(b),
{
    lemma_selected_from_same(a, b, 0);
}

/// `selected_from` depends only on which names are listed.
proof fn lemma_selected_from_same(a: Seq<Seq<char>>, b: Seq<Seq<char>>, k: int)
    requires
        forall|x: Seq<char>| a.contains(x) <==> b.contains(x),
    ensures
        selected_from(a, k) == selected_from(b, k),
    decreases 4 - k,
{
    if 0 <= k < 4 {
        lemma_selected_from_same(a, b, k + 1);
        assert(a.contains(stage_name(canonical_stages()[k])) == b.contains(stage_name(canonical_stages()[k])));
    }
}

/// Selected stages come in canonical order, each at most once: their positions in the canonical
/// order strictly increase.
pub proof fn lemma_selected_in_canonical_order(names: Seq<Seq<char>>)
    ensures
        forall|i: int, j: int|
            0 <= i < j < selected_stages(names).len() ==> stage_rank(#[trigger] selected_stages(names)[i])
                < stage_rank(#[trigger] selected_stages(names)[j]),
        forall|i: int|
            0 <= i < selected_stages(names).len() ==> names.contains(
                stage_name(#[trigger] selected_stages(names)[i]),
            ),
{
    lemma_selected_from_order(names, 0);
}

/// A stage's position in the canonical order.
pub open spec fn stage_rank(s: Stage) -> int {
    match s {
        Stage::Generate => 0,
        Stage::Annotate => 1,
        Stage::Analyze => 2,
        Stage::Report => 3,
    }
}

/// `selected_from(names, k)` holds listed stages of rank at least `k`, ranks increasing.
proof fn lemma_selected_from_order(names: Seq<Seq<char>>, k: int)
    requires
        0 <= k,
    ensures
        forall|i: int, j: int|
            0 <= i < j < selected_from(names, k).len() ==> stage_rank(#[trigger] selected_from(names, k)[i])
                < stage_rank(#[trigger] selected_from(names, k)[j]),
        forall|i: int|
            0 <= i < selected_from(names, k).len() ==> stage_rank(#[trigger] selected_from(names, k)[i]) >= k
                && names.contains(stage_name(selected_from(names, k)[i])),
    decreases 4 - k,
{
    if k < 4 {
        lemma_selected_from_order(names, k + 1);
        let s = canonical_stages()[k];
        assert(stage_rank(s) == k);
        let rest = selected_from(names, k + 1);
        if names.contains(stage_name(s)) {
            let v = seq![s] + rest;
            assert(selected_from(names, k) == v);
            assert forall|i: int, j: int| 0 <= i < j < v.len() implies stage_rank(#[trigger] v[i]) < stage_rank(
                #[trigger] v[j],
            ) by {
                if i == 0 {
                    assert(v[j] == rest[j - 1]);
                } else {
                    assert(v[i] == rest[i - 1]);
                    assert(v[j] == rest[j - 1]);
                }
            }
            assert forall|i: int| 0 <= i < v.len() implies stage_rank(#[trigger] v[i]) >= k && names.contains(
                stage_name(v[i]),
            ) by {
                if i > 0 {
                    assert(v[i] == rest[i - 1]);
                }
            }
        }
    }
}

} // verus!
