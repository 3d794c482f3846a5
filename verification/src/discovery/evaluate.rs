//! Evaluation of a strategy against solver ground truth: how often it picks an optimal action
//! at the annotated non-terminal positions, by the positions' values, and a fixed sample of its
//! choices that identifies its behaviour.

use vstd::prelude::*;
use crate::discovery::agreement::{agreeing_count, agreement_by_key, count_agreement, AgreementCounts};
use crate::discovery::config::CorpusError;
use crate::discovery::match_engine::{game_seed, holds_action, spec_game_seed, spec_splitmix64, splitmix64};
use crate::framework::traits::{GameDomain, GameRules, Strategy, StrategyError, StrategyProvider};
use crate::io::schema::AnnotationRecord;

verus! {

/// Salt mixed into the master seed to derive the agreement pass's seeds.
pub const AGREEMENT_SEED_SALT: u64 = 0x9E37_79B9_7F4A_7C15;

/// Most chosen actions a behaviour sample holds.
pub const SIGNATURE_SAMPLE: usize = 256;

/// A strategy's agreement with annotated optimal actions.
#[derive(Clone, Debug, PartialEq)]
pub struct AgreementSummary {
    /// Non-terminal annotated positions evaluated.
    pub positions: usize,
    /// Of `positions`, how many chose an action in the annotation's optimal set.
    pub agreeing: usize,
    /// Counts keyed by the annotation's side-to-move value, in order of first appearance.
    pub by_value: Vec<(i8, AgreementCounts)>,
}

/// Chosen actions at a fixed stride over the evaluated positions.
#[derive(Clone, Debug, PartialEq)]
pub struct BehaviorSample<A> {
    /// Distance, in evaluated positions, between two sampled choices.
    pub stride: usize,
    /// The sampled choices, in position order.
    pub actions: Vec<A>,
}

/// The agreement pass's results: the agreement and the behaviour sample.
#[derive(Clone, Debug, PartialEq)]
pub struct AgreementOutcome<A> {
    /// Agreement with the optimal actions.
    pub summary: AgreementSummary,
    /// Sample of the choices made.
    pub sample: BehaviorSample<A>,
}

/// The file positions of the non-terminal records among the first `m`, in order.
pub open spec fn nonterminal_prefix<S, A, P>(anns: Seq<AnnotationRecord<S, A, P>>, m: int) -> Seq<int>
    decreases m,
{
    if m <= 0 {
        seq![]
    } else if anns[m - 1].terminal {
        nonterminal_prefix(anns, m - 1)
    } else {
        nonterminal_prefix(anns, m - 1).push(m - 1)
    }
}

/// The file positions of the non-terminal records, in order.
pub open spec fn nonterminal_indices<S, A, P>(anns: Seq<AnnotationRecord<S, A, P>>) -> Seq<int> {
    nonterminal_prefix(anns, anns.len() as int)
}

/// Whether each choice `acts[k]`, made at record `idx[k]`, is optimal there.
pub open spec fn choice_flags<S, A, P>(anns: Seq<AnnotationRecord<S, A, P>>, idx: Seq<int>, acts: Seq<A>) -> Seq<
    bool,
> {
    Seq::new(acts.len(), |k: int| anns[idx[k]].optimal_actions@.contains(acts[k]))
}

/// The value of each record `idx[k]`.
pub open spec fn choice_values<S, A, P>(anns: Seq<AnnotationRecord<S, A, P>>, idx: Seq<int>) -> Seq<i8> {
    Seq::new(idx.len(), |k: int| anns[idx[k]].value)
}

/// The stride of a sample over `positions` evaluated positions:
/// `max(positions / SIGNATURE_SAMPLE, 1)`.
pub open spec fn sample_stride(positions: nat) -> nat {
    if positions / (SIGNATURE_SAMPLE as nat) == 0 {
        1
    } else {
        positions / (SIGNATURE_SAMPLE as nat)
    }
}

/// Position of the `j`-th sampled choice: `j * stride`.
pub open spec fn sampled_at(j: int, stride: int) -> int {
    j * stride
}

/// `sample` holds `acts[0]`, `acts[stride]`, `acts[2 * stride]`, ..., as many as `acts` has,
/// up to `SIGNATURE_SAMPLE`.
pub open spec fn is_sample_of<A>(sample: Seq<A>, acts: Seq<A>, stride: nat) -> bool {
    &&& sample.len() <= SIGNATURE_SAMPLE
    &&& forall|j: int| 0 <= j < sample.len() ==> #[trigger] sampled_at(j, stride as int) < acts.len()
    &&& forall|j: int| 0 <= j < sample.len() ==> #[trigger] sample[j] == acts[sampled_at(j, stride as int)]
    &&& (sample.len() == SIGNATURE_SAMPLE || sample.len() * stride >= acts.len())
}

/// `out` is the agreement pass over `anns` in which the strategy chose `acts[k]` at the `k`-th
/// non-terminal record.
pub open spec fn measured<S, A, P>(anns: Seq<AnnotationRecord<S, A, P>>, acts: Seq<A>, out: AgreementOutcome<A>) -> bool {
    let idx = nonterminal_indices(anns);
    let flags = choice_flags(anns, idx, acts);
    &&& acts.len() == idx.len()
    &&& out.summary.positions == idx.len()
    &&& out.summary.agreeing == agreeing_count(flags, acts.len() as int)
    &&& agreement_by_key(out.summary.by_value@, choice_values(anns, idx), flags)
    &&& out.sample.stride == sample_stride(acts.len())
    &&& is_sample_of(out.sample.actions@, acts, out.sample.stride as nat)
}

/// What the strategy created for record `i`, with the agreement pass's seed for that position,
/// picks in the record's state.
pub open spec fn record_choice<G: GameDomain, S: StrategyProvider<G>>(
    provider: &S,
    anns: Seq<AnnotationRecord<G::State, G::Action, G::Player>>,
    seed: u64,
    i: int,
) -> Result<G::Action, StrategyError> {
    provider.spec_create(spec_game_seed(spec_splitmix64(seed ^ AGREEMENT_SEED_SALT), i as u64)).spec_choice(
        anns[i].state,
    )
}

/// The actions picked at the first `n` non-terminal records, in order.
pub open spec fn record_choices<G: GameDomain, S: StrategyProvider<G>>(
    provider: &S,
    anns: Seq<AnnotationRecord<G::State, G::Action, G::Player>>,
    seed: u64,
    idx: Seq<int>,
) -> Seq<G::Action> {
    Seq::new(idx.len(), |k: int| record_choice::<G, S>(provider, anns, seed, idx[k])->Ok_0)
}

/// Every non-terminal record among `idx` gets a pick.
pub open spec fn all_picked<G: GameDomain, S: StrategyProvider<G>>(
    provider: &S,
    anns: Seq<AnnotationRecord<G::State, G::Action, G::Player>>,
    seed: u64,
    idx: Seq<int>,
) -> bool {
    forall|k: int| 0 <= k < idx.len() ==> #[trigger] record_choice::<G, S>(provider, anns, seed, idx[k]) is Ok
}

/// The `k`-th non-terminal record is the first whose strategy fails, with `e`.
pub open spec fn first_failure<G: GameDomain, S: StrategyProvider<G>>(
    provider: &S,
    anns: Seq<AnnotationRecord<G::State, G::Action, G::Player>>,
    seed: u64,
    k: int,
    e: StrategyError,
) -> bool {
    let idx = nonterminal_indices(anns);
    &&& 0 <= k < idx.len()
    &&& record_choice::<G, S>(provider, anns, seed, idx[k]) == Err::<G::Action, StrategyError>(e)
    &&& all_picked::<G, S>(provider, anns, seed, idx.take(k))
}

/// Some non-terminal record is the first whose strategy fails, with `e`.
pub open spec fn fails_first<G: GameDomain, S: StrategyProvider<G>>(
    provider: &S,
    anns: Seq<AnnotationRecord<G::State, G::Action, G::Player>>,
    seed: u64,
    e: StrategyError,
) -> bool {
    exists|k: int| #[trigger] first_failure::<G, S>(provider, anns, seed, k, e)
}

proof fn lemma_nonterminal_bounds<S, A, P>(anns: Seq<AnnotationRecord<S, A, P>>, m: int)
    requires
        0 <= m <= anns.len(),
    ensures
        nonterminal_prefix(anns, m).len() <= m,
        forall|k: int|
            0 <= k < nonterminal_prefix(anns, m).len() ==> 0 <= #[trigger] nonterminal_prefix(anns, m)[k] < m
                && !anns[nonterminal_prefix(anns, m)[k]].terminal,
    decreases m,
{
    if m > 0 {
        lemma_nonterminal_bounds(anns, m - 1);
    }
}

/// Every `stride`-th choice, up to `SIGNATURE_SAMPLE` of them.
fn sample_choices<A: Copy>(acts: &Vec<A>, stride: usize) -> (sample: Vec<A>)
    requires
        stride >= 1,
    ensures
        is_sample_of(sample@, acts@, stride as nat),
        acts@.len() == 0 ==> sample@.len() == 0,
{
    let positions = acts.len();
    let mut sample: Vec<A> = Vec::new();
    let mut ordinal: usize = 0;
    let mut done = positions == 0;
    while !done && sample.len() < SIGNATURE_SAMPLE
        invariant
            stride >= 1,
            positions == acts@.len(),
            sample@.len() <= SIGNATURE_SAMPLE,
            forall|j: int| 0 <= j < sample@.len() ==> #[trigger] sampled_at(j, stride as int) < positions,
            forall|j: int| 0 <= j < sample@.len() ==> #[trigger] sample@[j] == acts@[sampled_at(j, stride as int)],
            !done ==> ordinal == sample@.len() * stride && ordinal < positions,
            done ==> sample@.len() * stride >= positions,
            positions == 0 ==> done && sample@.len() == 0,
        decreases SIGNATURE_SAMPLE - sample@.len(),
    {
        let ghost n = sample@.len() as int;
        let ghost prior = sample@;
        sample.push(acts[ordinal]);
        proof {
            assert((n + 1) * stride == n * stride + stride) by (nonlinear_arith);
            assert(sample@[n] == acts@[sampled_at(n, stride as int)]);
            assert forall|j: int| 0 <= j < sample@.len() implies #[trigger] sampled_at(j, stride as int) < positions by {
                if j < n {
                    assert(sampled_at(j, stride as int) < positions);
                }
            }
            assert forall|j: int| 0 <= j < sample@.len() implies #[trigger] sample@[j] == acts@[sampled_at(j, stride as int)] by {
                if j < n {
                    assert(sample@[j] == prior[j]);
                }
            }
        }
        if stride >= positions - ordinal {
            done = true;
        } else {
            ordinal = ordinal + stride;
        }
    }
    sample
}

/// Measures how often strategies from `provider` pick an optimal action at the non-terminal
/// annotated positions, and samples their choices.
///
/// At each non-terminal record (file position `index`), a fresh strategy
/// `provider.create(game_seed(splitmix64(seed ^ AGREEMENT_SEED_SALT), index))` chooses among the
/// rules' legal actions in the record's state; it agrees iff the choice is one of the record's
/// optimal actions. The first failing choice, in file order, is the error. The sample holds
/// every `max(positions / SIGNATURE_SAMPLE, 1)`-th choice, at most `SIGNATURE_SAMPLE` of them.
pub fn measure_agreement<G: GameDomain, R: GameRules<G>, S: StrategyProvider<G>>(
    rules: &R,
    provider: &S,
    annotations: &[AnnotationRecord<G::State, G::Action, G::Player>],
    seed: u64,
) -> (r: Result<AgreementOutcome<G::Action>, CorpusError>)
    ensures
        r matches Err(e) ==> e is Strategy,
        r matches Err(e) ==> fails_first::<G, S>(provider, annotations@, seed, e->Strategy_0),
        r is Ok <==> all_picked::<G, S>(provider, annotations@, seed, nonterminal_indices(annotations@)),
        r matches Ok(out) ==> measured(
            annotations@,
            record_choices::<G, S>(provider, annotations@, seed, nonterminal_indices(annotations@)),
            out,
        ),
        (forall|i: int| 0 <= i < annotations@.len() ==> (#[trigger] annotations@[i]).terminal) ==> (r matches Ok(out)
            && out.summary.positions == 0 && out.summary.agreeing == 0 && out.summary.by_value@.len() == 0
            && out.sample.actions@.len() == 0),
{
    let ghost anns = annotations@;
    let ghost all_terminal = forall|i: int| 0 <= i < annotations@.len() ==> (#[trigger] annotations@[i]).terminal;
    let agreement_seed = splitmix64(seed ^ AGREEMENT_SEED_SALT);
    let mut acts: Vec<G::Action> = Vec::new();
    let mut by_value: Vec<(i8, AgreementCounts)> = Vec::new();
    let mut agreeing: usize = 0;
    let mut i: usize = 0;
    while i < annotations.len()
        invariant
            anns == annotations@,
            i <= anns.len(),
            acts@.len() == nonterminal_prefix(anns, i as int).len(),
            agreement_seed == spec_splitmix64(seed ^ AGREEMENT_SEED_SALT),
            acts@ == record_choices::<G, S>(provider, anns, seed, nonterminal_prefix(anns, i as int)),
            all_picked::<G, S>(provider, anns, seed, nonterminal_prefix(anns, i as int)),
            acts@.len() <= i,
            agreeing == agreeing_count(choice_flags(anns, nonterminal_prefix(anns, i as int), acts@), acts@.len() as int),
            agreeing <= acts@.len(),
            all_terminal == (forall|x: int| 0 <= x < anns.len() ==> (#[trigger] anns[x]).terminal),
            all_terminal ==> acts@.len() == 0 && by_value@.len() == 0 && agreeing == 0,
            agreement_by_key(
                by_value@,
                choice_values(anns, nonterminal_prefix(anns, i as int)),
                choice_flags(anns, nonterminal_prefix(anns, i as int), acts@),
            ),
        decreases anns.len() - i,
    {
        let record = &annotations[i];
        let ghost idx = nonterminal_prefix(anns, i as int);
        let ghost idx2 = nonterminal_prefix(anns, i + 1);
        if !record.terminal {
            proof {
                assert(anns[i as int] == *record);
            }
            let legal = rules.legal_actions(&record.state);
            let mut strategy = provider.create(game_seed(agreement_seed, i));
            let action = match strategy.pick(&record.state, legal.as_slice()) {
                Ok(a) => a,
                Err(e) => {
                    proof {
                        lemma_nonterminal_prefix_grows(anns, i as int + 1, anns.len() as int);
                        let full = nonterminal_indices(anns);
                        let k = idx.len() as int;
                        assert(full[k] == i as int);
                        assert(full.take(k) =~= idx);
                        assert(first_failure::<G, S>(provider, anns, seed, k, e));
                    }
                    return Err(CorpusError::Strategy(e));
                },
            };
            let agrees = holds_action::<G>(record.optimal_actions.as_slice(), &action);
            let ghost before = acts@;
            proof {
                assert(anns[i as int] == *record);
                assert(idx2 == idx.push(i as int));
                assert(choice_values(anns, idx2) =~= choice_values(anns, idx).push(record.value));
                assert(choice_flags(anns, idx2, before.push(action)) =~= choice_flags(anns, idx, before).push(agrees));
            }
            proof {
                assert(before.push(action) =~= record_choices::<G, S>(provider, anns, seed, idx2));
                assert forall|k: int| 0 <= k < idx2.len() implies #[trigger] record_choice::<G, S>(
                    provider,
                    anns,
                    seed,
                    idx2[k],
                ) is Ok by {
                    if k < idx.len() {
                        assert(idx2[k] == idx[k]);
                    }
                }
            }
            count_agreement(
                &mut by_value,
                record.value,
                agrees,
                Ghost(choice_values(anns, idx)),
                Ghost(choice_flags(anns, idx, before)),
            );
            acts.push(action);
            if agrees {
                agreeing = agreeing + 1;
            }
            proof {
                let f2 = choice_flags(anns, idx2, acts@);
                let len = before.len() as int;
                assert(f2[len] == agrees);
                assert(agreeing_count(f2, len + 1) == agreeing_count(f2, len) + if f2[len] {
                    1nat
                } else {
                    0
                });
                lemma_agreeing_count_prefix(f2, choice_flags(anns, idx, before), len);
                assert forall|m: int| 0 <= m <= before.len() implies #[trigger] agreeing_count(f2, m) == agreeing_count(
                    choice_flags(anns, idx, before),
                    m,
                ) by {
                    lemma_agreeing_count_prefix(f2, choice_flags(anns, idx, before), m);
                }
            }
        } else {
            proof {
                assert(anns[i as int] == *record);
                assert(idx2 == idx);
            }
        }
        i = i + 1;
    }
    let positions = acts.len();
    let stride: usize = if positions / SIGNATURE_SAMPLE == 0 {
        1
    } else {
        positions / SIGNATURE_SAMPLE
    };
    let actions = sample_choices(&acts, stride);
    let out = AgreementOutcome {
        summary: AgreementSummary { positions, agreeing, by_value },
        sample: BehaviorSample { stride, actions },
    };
    proof {
        assert(measured(anns, acts@, out));
    }
    Ok(out)
}

/// The non-terminal positions among the first `m` records are the first ones among more.
proof fn lemma_nonterminal_prefix_grows<S, A, P>(anns: Seq<AnnotationRecord<S, A, P>>, m: int, n: int)
    requires
        0 <= m <= n,
    ensures
        nonterminal_prefix(anns, m).len() <= nonterminal_prefix(anns, n).len(),
        forall|k: int| 0 <= k < nonterminal_prefix(anns, m).len() ==> #[trigger] nonterminal_prefix(anns, n)[k]
            == nonterminal_prefix(anns, m)[k],
    decreases n - m,
{
    if m < n {
        lemma_nonterminal_prefix_grows(anns, m, n - 1);
    }
}

/// Counting agreement over a prefix only reads the prefix.
proof fn lemma_agreeing_count_prefix(a: Seq<bool>, b: Seq<bool>, m: int)
    requires
        0 <= m <= b.len(),
        b.len() <= a.len(),
        forall|k: int| 0 <= k < b.len() ==> a[k] == b[k],
    ensures
        agreeing_count(a, m) == agreeing_count(b, m),
    decreases m,
{
    if m > 0 {
        lemma_agreeing_count_prefix(a, b, m - 1);
    }
}

} // verus!
