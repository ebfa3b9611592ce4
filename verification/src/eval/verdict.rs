//! One commit's verdict as the eval harness evaluates it.
//!
//! Sampling and re-prediction must reach the verdict `tga classify` would
//! store under the same config. A stored verdict from a tier that is never
//! re-run offline (manual, LLM, external source, repo fallback) is carried
//! only when the config's cascade would still reach that tier; otherwise
//! the re-derived verdict wins and the stored one counts as superseded.

use vstd::prelude::*;
use crate::classify::trace::TraceTier;
use crate::text::str_eq;

verus! {

/// The tier and rule id of a stored verdict whose `method` was decided
/// outside the rule engine. An `external_source` verdict counts only when
/// the engine did not reproduce it through its own JIRA-project or
/// issue-type tier.
pub open spec fn override_of(method: Seq<char>, traced: TraceTier) -> Option<(TraceTier, Seq<char>)> {
    if method == "manual"@ {
        Some((TraceTier::Manual, "manual_override"@))
    } else if method == "llm_fallback"@ {
        Some((TraceTier::Llm, "llm"@))
    } else if method == "repo_category_fallback"@ {
        Some((TraceTier::RepoCategory, "repo_category"@))
    } else if method == "external_source"@ && traced != TraceTier::JiraProject && traced != TraceTier::IssueType {
        Some((TraceTier::ExternalSource, "external_source"@))
    } else {
        None
    }
}

/// Map a stored `method` decided outside the rule engine to its trace.
pub fn stored_override(method: &str, traced: TraceTier) -> (r: Option<(TraceTier, &'static str)>)
    ensures
        match r {
            Some((t, id)) => override_of(method@, traced) == Some((t, id@)),
            None => override_of(method@, traced) is None,
        },
{
    if str_eq(method, "manual") {
        Some((TraceTier::Manual, "manual_override"))
    } else if str_eq(method, "llm_fallback") {
        Some((TraceTier::Llm, "llm"))
    } else if str_eq(method, "repo_category_fallback") {
        Some((TraceTier::RepoCategory, "repo_category"))
    } else if str_eq(method, "external_source") && traced != TraceTier::JiraProject && traced
        != TraceTier::IssueType {
        Some((TraceTier::ExternalSource, "external_source"))
    } else {
        None
    }
}

/// Which non-rule tiers the config's classify cascade would reach.
#[derive(Clone, Copy, Debug, PartialEq, Eq, Structural)]
pub struct CarryPolicy {
    /// The LLM tier runs (an `llm:` section, or `classification.use_llm`).
    pub use_llm: bool,
    /// An external source is configured and not switched off.
    pub external: bool,
}

/// Whether the cascade reaches tier `stored`, given the re-derived verdict's
/// tier and whether its confidence is at or below the LLM fallback
/// threshold.
pub open spec fn reaches_spec(p: CarryPolicy, stored: TraceTier, traced: TraceTier, low_confidence: bool) -> bool {
    match stored {
        TraceTier::Manual => true,
        TraceTier::Llm => p.use_llm && low_confidence,
        TraceTier::RepoCategory => traced == TraceTier::Unclassified,
        TraceTier::ExternalSource => p.external,
        _ => false,
    }
}

impl CarryPolicy {
    /// Whether the cascade reaches `stored` given the re-derived verdict's
    /// tier `traced`; `low_confidence` says whether that verdict's
    /// confidence is at or below the LLM fallback threshold.
    pub fn reaches(&self, stored: TraceTier, traced: TraceTier, low_confidence: bool) -> (r: bool)
        ensures
            r == reaches_spec(*self, stored, traced, low_confidence),
    {
        match stored {
            TraceTier::Manual => true,
            TraceTier::Llm => self.use_llm && low_confidence,
            TraceTier::RepoCategory => traced == TraceTier::Unclassified,
            TraceTier::ExternalSource => self.external,
            _ => false,
        }
    }
}

/// What the harness does with one commit's stored verdict.
#[derive(Clone, Copy, Debug, PartialEq, Eq)]
pub enum VerdictChoice {
    /// Keep the stored verdict under this tier and rule id.
    Carried { tier: TraceTier, rule_id: &'static str },
    /// Use the re-derived verdict; `superseded` when a stored non-rule
    /// verdict was dropped, `drifted` when a stored rule-engine verdict
    /// names another category.
    Rederived { superseded: bool, drifted: bool },
}

/// The choice for a commit whose stored verdict is `stored` (category and
/// method), re-derived by the engine as `traced_category` at tier `traced`.
pub open spec fn choice_of(
    policy: CarryPolicy,
    stored: Option<(Seq<char>, Seq<char>)>,
    traced: TraceTier,
    traced_category: Seq<char>,
    low_confidence: bool,
) -> (bool, TraceTier, Seq<char>, bool, bool) {
    match stored {
        None => (false, traced, Seq::empty(), false, false),
        Some((cat, method)) => match override_of(method, traced) {
            Some((tier, rule)) => if reaches_spec(policy, tier, traced, low_confidence) {
                (true, tier, rule, false, false)
            } else {
                (false, traced, Seq::empty(), true, false)
            },
            None => (false, traced, Seq::empty(), false, cat != traced_category),
        },
    }
}

/// The choice as (carried, tier, rule id, superseded, drifted); a
/// re-derived verdict keeps the traced tier.
pub open spec fn choice_view(c: VerdictChoice, traced: TraceTier) -> (bool, TraceTier, Seq<char>, bool, bool) {
    match c {
        VerdictChoice::Carried { tier, rule_id } => (true, tier, rule_id@, false, false),
        VerdictChoice::Rederived { superseded, drifted } => (false, traced, Seq::empty(), superseded, drifted),
    }
}

/// Decide one commit's verdict. A stored verdict from a tier outside the
/// rule engine is carried when `policy` says the cascade reaches that tier,
/// otherwise it is superseded by the re-derived one; a stored rule-engine
/// verdict is re-derived, and counts as drift when its category changed.
pub fn choose_verdict(
    policy: &CarryPolicy,
    stored: Option<(&str, &str)>,
    traced: TraceTier,
    traced_category: &str,
    low_confidence: bool,
) -> (c: VerdictChoice)
    ensures
        choice_view(c, traced) == choice_of(
            *policy,
            match stored {
                Some((cat, method)) => Some((cat@, method@)),
                None => None,
            },
            traced,
            traced_category@,
            low_confidence,
        ),
{
    match stored {
        None => VerdictChoice::Rederived { superseded: false, drifted: false },
        Some((cat, method)) => match stored_override(method, traced) {
            Some((tier, rule)) => {
                if policy.reaches(tier, traced, low_confidence) {
                    VerdictChoice::Carried { tier, rule_id: rule }
                } else {
                    VerdictChoice::Rederived { superseded: true, drifted: false }
                }
            },
            None => VerdictChoice::Rederived { superseded: false, drifted: !str_eq(cat, traced_category) },
        },
    }
}

/// The carrying rules, stated per stored method. A manual override is
/// always carried; an LLM verdict exactly when the LLM tier runs and the
/// re-derived verdict is low-confidence; a repo-category fallback exactly
/// when the engine leaves the commit unclassified; an external-source
/// verdict the engine did not reproduce exactly when external sources are
/// enabled. A dropped one counts as superseded and leaves the re-derived
/// tier; any other stored verdict is re-derived, drifting exactly when its
/// category changed.
pub proof fn lemma_carrying_follows_the_policy(
    policy: CarryPolicy,
    cat: Seq<char>,
    method: Seq<char>,
    traced: TraceTier,
    traced_category: Seq<char>,
    low_confidence: bool,
)
    ensures
        ({
            let c = choice_of(policy, Some((cat, method)), traced, traced_category, low_confidence);
            &&& method == "manual"@ ==> c == (true, TraceTier::Manual, "manual_override"@, false, false)
            &&& method == "llm_fallback"@ ==> (c.0 <==> (policy.use_llm && low_confidence)) && (c.0 ==> c.1
                == TraceTier::Llm && c.2 == "llm"@) && (!c.0 ==> c.3 && c.1 == traced)
            &&& method == "repo_category_fallback"@ ==> (c.0 <==> traced == TraceTier::Unclassified) && (c.0 ==> c.1
                == TraceTier::RepoCategory && c.2 == "repo_category"@) && (!c.0 ==> c.3 && c.1 == traced)
            &&& method == "external_source"@ && traced != TraceTier::JiraProject && traced != TraceTier::IssueType ==> (
            c.0 <==> policy.external) && (c.0 ==> c.1 == TraceTier::ExternalSource && c.2 == "external_source"@) && (
            !c.0 ==> c.3 && c.1 == traced)
            &&& (method != "manual"@ && method != "llm_fallback"@ && method != "repo_category_fallback"@ && (method
                != "external_source"@ || traced == TraceTier::JiraProject || traced == TraceTier::IssueType)) ==> (!c.0
                && !c.3 && c.1 == traced && (c.4 <==> cat != traced_category))
            &&& c.0 ==> !c.3 && !c.4
        }),
{
    reveal_strlit("manual");
    reveal_strlit("llm_fallback");
    reveal_strlit("repo_category_fallback");
    reveal_strlit("external_source");
    let c = choice_of(policy, Some((cat, method)), traced, traced_category, low_confidence);
    assert("manual"@.len() == 6);
    assert("llm_fallback"@.len() == 12);
    assert("repo_category_fallback"@.len() == 22);
    assert("external_source"@.len() == 15);
    if method == "manual"@ {
        assert(override_of(method, traced) == Some((TraceTier::Manual, "manual_override"@)));
        assert(c =~~= (true, TraceTier::Manual, "manual_override"@, false, false));
    }
}

/// A commit with no stored verdict takes the re-derived one, neither
/// superseded nor drifted.
pub proof fn lemma_nothing_stored_is_rederived(
    policy: CarryPolicy,
    traced: TraceTier,
    traced_category: Seq<char>,
    low_confidence: bool,
)
    ensures
        choice_of(policy, None, traced, traced_category, low_confidence) == (
            false,
            traced,
            Seq::<char>::empty(),
            false,
            false,
        ),
{
}

/// The reach test of each stored tier: a manual override is always
/// reached, the LLM tier when it runs and the re-derived verdict is
/// low-confidence, the repo-category fallback when the engine leaves the
/// commit unclassified, external sources when they are enabled, and no
/// rule-engine tier.
pub proof fn lemma_reach_by_tier(p: CarryPolicy, traced: TraceTier, low_confidence: bool)
    ensures
        reaches_spec(p, TraceTier::Manual, traced, low_confidence),
        reaches_spec(p, TraceTier::Llm, traced, low_confidence) <==> (p.use_llm && low_confidence),
        reaches_spec(p, TraceTier::RepoCategory, traced, low_confidence) <==> traced == TraceTier::Unclassified,
        reaches_spec(p, TraceTier::ExternalSource, traced, low_confidence) <==> p.external,
        forall|t: TraceTier|
            t != TraceTier::Manual && t != TraceTier::Llm && t != TraceTier::RepoCategory && t
                != TraceTier::ExternalSource ==> !#[trigger] reaches_spec(p, t, traced, low_confidence),
{
}

/// The stored verdict of one commit as (category, method), by view.
pub open spec fn stored_view(stored: Option<(String, String)>) -> Option<(Seq<char>, Seq<char>)> {
    match stored {
        Some((cat, method)) => Some((cat@, method@)),
        None => None,
    }
}

/// The choice for commit `i`, whose re-derivation is (tier, category,
/// low confidence).
pub open spec fn choice_at(
    policy: CarryPolicy,
    stored: Seq<Option<(String, String)>>,
    traced: Seq<(TraceTier, String, bool)>,
    i: int,
) -> (bool, TraceTier, Seq<char>, bool, bool) {
    choice_of(policy, stored_view(stored[i]), traced[i].0, traced[i].1@, traced[i].2)
}

/// How many of the first `n` commits hold a stored rule-engine verdict
/// whose category differs from the re-derived one.
pub open spec fn drift_upto(
    policy: CarryPolicy,
    stored: Seq<Option<(String, String)>>,
    traced: Seq<(TraceTier, String, bool)>,
    n: int,
) -> nat
    decreases n,
{
    if n <= 0 {
        0
    } else {
        drift_upto(policy, stored, traced, n - 1) + if choice_at(policy, stored, traced, n - 1).4 {
            1nat
        } else {
            0nat
        }
    }
}

proof fn lemma_drift_bound(
    policy: CarryPolicy,
    stored: Seq<Option<(String, String)>>,
    traced: Seq<(TraceTier, String, bool)>,
    n: int,
)
    requires
        0 <= n,
    ensures
        drift_upto(policy, stored, traced, n) <= n,
    decreases n,
{
    if n > 0 {
        lemma_drift_bound(policy, stored, traced, n - 1);
    }
}

/// Decide every commit's verdict, in input order, pairing the stored
/// verdicts with the engine's re-derivations (tier, category, and whether
/// its confidence is at or below the LLM fallback threshold) as far as
/// both reach, and count the drifted rule-engine verdicts.
pub fn choose_verdicts(
    policy: &CarryPolicy,
    stored: &[Option<(String, String)>],
    traced: &[(TraceTier, String, bool)],
) -> (r: (Vec<VerdictChoice>, u64))
    ensures
        r.0.len() == if stored.len() <= traced.len() { stored.len() } else { traced.len() },
        forall|i: int|
            0 <= i < r.0.len() ==> choice_view(#[trigger] r.0[i], traced@[i].0) == choice_at(
                *policy,
                stored@,
                traced@,
                i,
            ),
        r.1 == drift_upto(*policy, stored@, traced@, r.0.len() as int),
{
    let n: usize = if stored.len() <= traced.len() { stored.len() } else { traced.len() };
    let mut out: Vec<VerdictChoice> = Vec::new();
    let mut drifted: u64 = 0;
    let mut i: usize = 0;
    while i < n
        invariant
            n <= stored.len(),
            n <= traced.len(),
            n == if stored.len() <= traced.len() { stored.len() } else { traced.len() },
            i <= n,
            out.len() == i,
            forall|k: int|
                0 <= k < i ==> choice_view(#[trigger] out[k], traced@[k].0) == choice_at(
                    *policy,
                    stored@,
                    traced@,
                    k,
                ),
            drifted == drift_upto(*policy, stored@, traced@, i as int),
        decreases n - i,
    {
        let s: Option<(&str, &str)> = match &stored[i] {
            Some((cat, method)) => Some((cat.as_str(), method.as_str())),
            None => None,
        };
        let (tier, cat, low) = &traced[i];
        let c = choose_verdict(policy, s, *tier, cat.as_str(), *low);
        proof {
            lemma_drift_bound(*policy, stored@, traced@, i as int);
        }
        let d: bool = match c {
            VerdictChoice::Rederived { drifted: true, .. } => true,
            _ => false,
        };
        if d {
            drifted = drifted + 1;
        }
        out.push(c);
        i = i + 1;
    }
    (out, drifted)
}

} // verus!
