//! The checks a classification run makes before it writes anything, and the
//! order of its steps.
//!
//! A run restricted to listed SHAs refuses SHAs the database does not hold;
//! under `--force` it also refuses listed SHAs that the repository and date
//! filters leave out, rather than skipping them silently. Nothing is
//! written and no LLM is called before those checks pass.

use vstd::prelude::*;
use crate::text::{chars_less, chars_of, lemma_str_less_total, lemma_str_less_trans, str_eq, str_less};

verus! {

/// Why the listed SHAs were refused.
#[derive(Clone, Debug, PartialEq, Eq)]
pub enum ShaError {
    /// The list names no SHA.
    Empty,
    /// Listed SHAs the database does not hold, in the order listed.
    Unknown(Vec<String>),
    /// Listed SHAs outside the `--repos`/`--since`/`--until` filter, each
    /// once, in string order.
    OutsideFilter(Vec<String>),
}

/// `s` is one of `list`, by view.
pub open spec fn listed(list: Seq<String>, s: Seq<char>) -> bool {
    exists|i: int| 0 <= i < list.len() && #[trigger] list[i]@ == s
}

/// The listed SHAs among the first `n` that `known` does not hold, in order.
pub open spec fn unknown_shas(requested: Seq<String>, known: Seq<String>, n: int) -> Seq<Seq<char>>
    decreases n,
{
    if n <= 0 {
        Seq::empty()
    } else if listed(known, requested[n - 1]@) {
        unknown_shas(requested, known, n - 1)
    } else {
        unknown_shas(requested, known, n - 1).push(requested[n - 1]@)
    }
}

/// Strictly increasing in string order.
pub open spec fn strictly_sorted(v: Seq<Seq<char>>) -> bool {
    forall|i: int, j: int| 0 <= i < j < v.len() ==> str_less(#[trigger] v[i], #[trigger] v[j])
}

/// The listed SHAs the candidates leave out.
pub open spec fn excluded(requested: Seq<String>, candidates: Seq<String>, s: Seq<char>) -> bool {
    listed(requested, s) && !listed(candidates, s)
}

/// Strings by view.
pub open spec fn views(v: Seq<String>) -> Seq<Seq<char>> {
    Seq::new(v.len(), |i: int| v[i]@)
}

fn is_listed(list: &[String], s: &str) -> (r: bool)
    ensures
        r == listed(list@, s@),
{
    let mut i: usize = 0;
    while i < list.len()
        invariant
            i <= list.len(),
            forall|k: int| 0 <= k < i ==> #[trigger] list@[k]@ != s@,
        decreases list.len() - i,
    {
        if str_eq(list[i].as_str(), s) {
            return true;
        }
        i = i + 1;
    }
    false
}

/// Insert `x` into a strictly sorted list unless it is there already.
fn insert_sorted(v: &mut Vec<String>, x: &str)
    requires
        strictly_sorted(views(old(v)@)),
    ensures
        strictly_sorted(views(final(v)@)),
        forall|s: Seq<char>| views(final(v)@).contains(s) <==> (views(old(v)@).contains(s) || s == x@),
{
    let ghost w = views(v@);
    let xc = chars_of(x);
    let mut p: usize = 0;
    while p < v.len() && chars_less(chars_of(v[p].as_str()).as_slice(), xc.as_slice())
        invariant
            p <= v.len(),
            w == views(v@),
            xc@ == x@,
            forall|k: int| 0 <= k < p ==> str_less(#[trigger] w[k], x@),
        decreases v.len() - p,
    {
        p = p + 1;
    }
    if p < v.len() && str_eq(v[p].as_str(), x) {
        assert(w[p as int] == x@);
        assert(forall|s: Seq<char>| w.contains(s) <==> (w.contains(s) || s == x@));
        return;
    }
    proof {
        if p < v.len() {
            lemma_str_less_total(w[p as int], x@);
            assert(str_less(x@, w[p as int]));
        }
    }
    v.insert(p, String::from_str(x));
    let ghost nw = views(v@);
    proof {
        assert(nw =~= w.insert(p as int, x@));
        assert forall|i: int, j: int| 0 <= i < j < nw.len() implies str_less(#[trigger] nw[i], #[trigger] nw[j]) by {
            if j < p {
                assert(nw[i] == w[i] && nw[j] == w[j]);
            } else if j == p {
                assert(nw[j] == x@);
                assert(nw[i] == w[i]);
            } else if i == p {
                assert(nw[i] == x@);
                assert(nw[j] == w[j - 1]);
                if j - 1 > p {
                    lemma_str_less_trans(x@, w[p as int], w[j - 1]);
                }
            } else if i < p {
                assert(nw[i] == w[i] && nw[j] == w[j - 1]);
                lemma_str_less_trans(w[i], x@, w[p as int]);
                if j - 1 > p {
                    lemma_str_less_trans(w[i], w[p as int], w[j - 1]);
                }
            } else {
                assert(nw[i] == w[i - 1] && nw[j] == w[j - 1]);
            }
        }
        assert forall|s: Seq<char>| nw.contains(s) <==> (w.contains(s) || s == x@) by {
            if nw.contains(s) {
                let k = choose|k: int| 0 <= k < nw.len() && nw[k] == s;
                if k < p {
                    assert(w[k] == s);
                } else if k > p {
                    assert(w[k - 1] == s);
                }
            }
            if w.contains(s) {
                let k = choose|k: int| 0 <= k < w.len() && w[k] == s;
                if k < p {
                    assert(nw[k] == s);
                } else {
                    assert(nw[k + 1] == s);
                }
            }
            if s == x@ {
                assert(nw[p as int] == s);
            }
        }
    }
}

/// Check the SHAs a run lists before anything is written: an empty list is
/// refused; so are the SHAs the database (`known`) does not hold; under
/// `force`, so are the ones the filters leave out of `candidates`.
pub fn check_requested_shas(
    requested: &[String],
    known: &[String],
    candidates: &[String],
    force: bool,
) -> (r: Result<(), ShaError>)
    ensures
        requested.len() == 0 ==> r matches Err(ShaError::Empty),
        requested.len() > 0 && unknown_shas(requested@, known@, requested.len() as int).len() > 0 ==> (r matches Err(
            ShaError::Unknown(u),
        ) && views(u@) == unknown_shas(requested@, known@, requested.len() as int)),
        requested.len() > 0 && unknown_shas(requested@, known@, requested.len() as int).len() == 0 ==> match r {
            Ok(()) => !force || forall|s: Seq<char>| !excluded(requested@, candidates@, s),
            Err(ShaError::OutsideFilter(e)) => force && strictly_sorted(views(e@)) && e.len() > 0
                && forall|s: Seq<char>| views(e@).contains(s) <==> excluded(requested@, candidates@, s),
            Err(ShaError::Unknown(_)) => false,
            Err(ShaError::Empty) => false,
        },
{
    if requested.len() == 0 {
        return Err(ShaError::Empty);
    }
    let mut unknown: Vec<String> = Vec::new();
    let mut i: usize = 0;
    while i < requested.len()
        invariant
            i <= requested.len(),
            views(unknown@) == unknown_shas(requested@, known@, i as int),
        decreases requested.len() - i,
    {
        if !is_listed(known, requested[i].as_str()) {
            let ghost before = unknown@;
            unknown.push(String::from_str(requested[i].as_str()));
            assert(views(unknown@) =~= views(before).push(requested@[i as int]@));
        }
        i = i + 1;
    }
    if unknown.len() > 0 {
        return Err(ShaError::Unknown(unknown));
    }
    if !force {
        return Ok(());
    }
    let mut out: Vec<String> = Vec::new();
    let mut j: usize = 0;
    while j < requested.len()
        invariant
            j <= requested.len(),
            strictly_sorted(views(out@)),
            forall|s: Seq<char>|
                views(out@).contains(s) <==> (exists|k: int|
                    0 <= k < j && #[trigger] requested@[k]@ == s && !listed(candidates@, s)),
        decreases requested.len() - j,
    {
        if !is_listed(candidates, requested[j].as_str()) {
            insert_sorted(&mut out, requested[j].as_str());
        }
        j = j + 1;
    }
    if out.len() > 0 {
        Err(ShaError::OutsideFilter(out))
    } else {
        proof {
            assert forall|s: Seq<char>| !excluded(requested@, candidates@, s) by {
                if excluded(requested@, candidates@, s) {
                    let k = choose|k: int| 0 <= k < requested@.len() && #[trigger] requested@[k]@ == s;
                    assert(views(out@).contains(s));
                }
            }
        }
        Ok(())
    }
}

/// Where a classification run stands.
#[derive(Clone, Copy, Debug, PartialEq, Eq, Structural)]
pub struct RunState {
    /// The run lists SHAs (`--shas`).
    pub has_shas: bool,
    /// The LLM tier is on.
    pub use_llm: bool,
    /// The listed SHAs are all in the database.
    pub shas_ok: bool,
    /// Every check passed: the run may classify and write.
    pub validated: bool,
    /// The rule cascade has run over the candidates.
    pub rules_done: bool,
    /// The LLM fallback has run.
    pub llm_done: bool,
    /// The run is over.
    pub done: bool,
}

/// What the outside work of a run reports.
#[derive(Clone, Copy, Debug, PartialEq, Eq, Structural)]
pub enum RunEvent {
    /// The run starts.
    Begin,
    /// The listed SHAs were looked up: all present or not.
    ShasChecked(bool),
    /// The candidates were read: how many, and whether every listed SHA
    /// is among them where `--force` requires it.
    CandidatesRead { count: usize, filter_ok: bool },
    /// The rule cascade ran.
    RulesApplied,
    /// The LLM fallback ran.
    LlmFinished,
    /// The verdicts were written.
    Written,
}

/// What the run does next.
#[derive(Clone, Copy, Debug, PartialEq, Eq, Structural)]
pub enum RunAction {
    /// Look the listed SHAs up.
    CheckShas,
    /// Read the candidate commits.
    ReadCandidates,
    /// Stop with an error; nothing was written.
    Refuse,
    /// Run the rule cascade.
    ApplyRules,
    /// Run the LLM fallback.
    CallLlm,
    /// Write the verdicts.
    Write,
    /// Stop.
    Finish,
}

/// A fresh run.
pub open spec fn fresh_spec(has_shas: bool, use_llm: bool) -> RunState {
    RunState {
        has_shas,
        use_llm,
        shas_ok: false,
        validated: false,
        rules_done: false,
        llm_done: false,
        done: false,
    }
}

/// A fresh run.
pub fn fresh(has_shas: bool, use_llm: bool) -> (s: RunState)
    ensures
        s == fresh_spec(has_shas, use_llm),
{
    RunState {
        has_shas,
        use_llm,
        shas_ok: false,
        validated: false,
        rules_done: false,
        llm_done: false,
        done: false,
    }
}

/// The next state and action.
pub open spec fn step_spec(s: RunState, e: RunEvent) -> (RunState, RunAction) {
    if s.done {
        (s, RunAction::Finish)
    } else {
        match e {
            RunEvent::Begin => if s.has_shas {
                (s, RunAction::CheckShas)
            } else {
                (s, RunAction::ReadCandidates)
            },
            RunEvent::ShasChecked(ok) => if ok {
                (RunState { shas_ok: true, ..s }, RunAction::ReadCandidates)
            } else {
                (RunState { done: true, ..s }, RunAction::Refuse)
            },
            RunEvent::CandidatesRead { count, filter_ok } => if !filter_ok || (s.has_shas && !s.shas_ok) {
                (RunState { done: true, ..s }, RunAction::Refuse)
            } else if count == 0 {
                (RunState { validated: true, done: true, ..s }, RunAction::Finish)
            } else {
                (RunState { validated: true, ..s }, RunAction::ApplyRules)
            },
            RunEvent::RulesApplied => if !s.validated {
                (RunState { done: true, ..s }, RunAction::Refuse)
            } else if s.use_llm {
                (RunState { rules_done: true, ..s }, RunAction::CallLlm)
            } else {
                (RunState { rules_done: true, ..s }, RunAction::Write)
            },
            RunEvent::LlmFinished => if !s.rules_done {
                (RunState { done: true, ..s }, RunAction::Refuse)
            } else {
                (RunState { llm_done: true, ..s }, RunAction::Write)
            },
            RunEvent::Written => (RunState { done: true, ..s }, RunAction::Finish),
        }
    }
}

/// One step of a classification run (see
/// [`lemma_no_write_before_validation`] for what a run from a fresh state
/// keeps).
pub fn run_step(s: RunState, e: RunEvent) -> (r: (RunState, RunAction))
    ensures
        r == step_spec(s, e),
{
    if s.done {
        return (s, RunAction::Finish);
    }
    match e {
        RunEvent::Begin => if s.has_shas {
            (s, RunAction::CheckShas)
        } else {
            (s, RunAction::ReadCandidates)
        },
        RunEvent::ShasChecked(ok) => if ok {
            (RunState { shas_ok: true, ..s }, RunAction::ReadCandidates)
        } else {
            (RunState { done: true, ..s }, RunAction::Refuse)
        },
        RunEvent::CandidatesRead { count, filter_ok } => if !filter_ok || (s.has_shas && !s.shas_ok) {
            (RunState { done: true, ..s }, RunAction::Refuse)
        } else if count == 0 {
            (RunState { validated: true, done: true, ..s }, RunAction::Finish)
        } else {
            (RunState { validated: true, ..s }, RunAction::ApplyRules)
        },
        RunEvent::RulesApplied => if !s.validated {
            (RunState { done: true, ..s }, RunAction::Refuse)
        } else if s.use_llm {
            (RunState { rules_done: true, ..s }, RunAction::CallLlm)
        } else {
            (RunState { rules_done: true, ..s }, RunAction::Write)
        },
        RunEvent::LlmFinished => if !s.rules_done {
            (RunState { done: true, ..s }, RunAction::Refuse)
        } else {
            (RunState { llm_done: true, ..s }, RunAction::Write)
        },
        RunEvent::Written => (RunState { done: true, ..s }, RunAction::Finish),
    }
}

/// The state after a run of events from a fresh state.
pub open spec fn run_of(has_shas: bool, use_llm: bool, events: Seq<RunEvent>) -> RunState
    decreases events.len(),
{
    if events.len() == 0 {
        fresh_spec(has_shas, use_llm)
    } else {
        step_spec(run_of(has_shas, use_llm, events.drop_last()), events.last()).0
    }
}

/// Along any run from a fresh state, a state that has validated has seen
/// the listed SHAs found, and rules have run only after validation.
proof fn lemma_run_invariant(has_shas: bool, use_llm: bool, events: Seq<RunEvent>)
    ensures
        run_of(has_shas, use_llm, events).has_shas == has_shas,
        run_of(has_shas, use_llm, events).use_llm == use_llm,
        run_of(has_shas, use_llm, events).validated ==> (!has_shas || run_of(
            has_shas,
            use_llm,
            events,
        ).shas_ok),
        run_of(has_shas, use_llm, events).rules_done ==> run_of(has_shas, use_llm, events).validated,
    decreases events.len(),
{
    if events.len() > 0 {
        lemma_run_invariant(has_shas, use_llm, events.drop_last());
    }
}

/// Whatever the outside work reports, a run from a fresh state writes its
/// verdicts or calls the LLM only after every listed SHA was found in the
/// database, the filter check passed and the rules ran over a non-empty
/// candidate set.
pub proof fn lemma_no_write_before_validation(has_shas: bool, use_llm: bool, events: Seq<RunEvent>, e: RunEvent)
    ensures
        ({
            let (s, a) = step_spec(run_of(has_shas, use_llm, events), e);
            (a == RunAction::Write || a == RunAction::CallLlm) ==> s.validated && s.rules_done && (!has_shas
                || s.shas_ok)
        }),
{
    lemma_run_invariant(has_shas, use_llm, events);
}

/// Where a commit's verdict comes from before the LLM tier.
#[derive(Clone, Copy, Debug, PartialEq, Eq, Structural)]
pub enum VerdictSource {
    /// A manual override (tier 0): it always wins.
    Override,
    /// An external ticket signal (tier 0.5): it beats the rules but never an
    /// override.
    External,
    /// The rule cascade (tiers 1 to 3).
    Rules,
}

/// The precedence of the verdict sources for one commit.
pub open spec fn source_of(has_override: bool, has_signal: bool, resolver: bool) -> VerdictSource {
    if has_override {
        VerdictSource::Override
    } else if resolver && has_signal {
        VerdictSource::External
    } else {
        VerdictSource::Rules
    }
}

/// Per commit, which verdict stands: its manual override if it has one, else
/// the external signal for its message when a resolver is configured, else
/// the rules' verdict.
pub fn verdict_sources(has_override: &[bool], has_signal: &[bool], resolver: bool) -> (v: Vec<VerdictSource>)
    requires
        has_override.len() == has_signal.len(),
    ensures
        v.len() == has_override.len(),
        forall|i: int| 0 <= i < v.len() ==> #[trigger] v[i] == source_of(has_override[i], has_signal[i], resolver),
{
    let mut v: Vec<VerdictSource> = Vec::new();
    let mut i: usize = 0;
    while i < has_override.len()
        invariant
            i <= has_override.len(),
            has_override.len() == has_signal.len(),
            v.len() == i,
            forall|k: int| 0 <= k < i ==> #[trigger] v[k] == source_of(has_override[k], has_signal[k], resolver),
        decreases has_override.len() - i,
    {
        let s = if has_override[i] {
            VerdictSource::Override
        } else if resolver && has_signal[i] {
            VerdictSource::External
        } else {
            VerdictSource::Rules
        };
        v.push(s);
        i = i + 1;
    }
    v
}

} // verus!
