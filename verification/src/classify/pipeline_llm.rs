//! Token accounting of the pipeline's LLM fallback step.

use vstd::prelude::*;
use crate::classify::llm_prompt::{outcome_label, LlmOutcome, LlmUsage};
use crate::config::llm::LlmFallbackScope;
use crate::text::str_eq;

verus! {

/// Outcome label of an answer that replaced the rule verdict.
pub const ADOPTED: &'static str = "adopted";

/// Outcome label of an answer the overwrite guard kept out.
pub const NOT_ADOPTED: &'static str = "not_adopted";

/// Totals for one run's LLM calls.
#[derive(Clone, Copy, Debug, Default, PartialEq, Eq, Structural)]
pub struct LlmUsageTotals {
    /// LLM calls made.
    pub calls: usize,
    /// Answers that replaced the rule verdict.
    pub adopted: usize,
    /// Answers at or below the rule verdict's confidence, kept out.
    pub not_adopted: usize,
    /// Calls where the model chose the abstain label.
    pub abstained: usize,
    /// Calls answered outside the configured category set (dropped).
    pub out_of_set: usize,
    /// Calls with no usable reply.
    pub failed: usize,
    /// Calls whose provider reported token usage.
    pub calls_with_usage: usize,
    /// Sum of reported input tokens.
    pub input_tokens: u64,
    /// Sum of reported output tokens.
    pub output_tokens: u64,
}

/// Which counter an outcome label feeds: adopted, not adopted, abstained,
/// out of set, or (anything unrecognised) failed.
pub open spec fn outcome_slot(outcome: Seq<char>) -> int {
    if outcome == "adopted"@ {
        0
    } else if outcome == "not_adopted"@ {
        1
    } else if outcome == outcome_label(LlmOutcome::Abstained) {
        2
    } else if outcome == outcome_label(LlmOutcome::OutOfSet) {
        3
    } else {
        4
    }
}

/// One if `slot` is the counter `outcome` feeds, else zero.
pub open spec fn bump(outcome: Seq<char>, slot: int) -> int {
    if outcome_slot(outcome) == slot { 1 } else { 0 }
}

impl LlmUsageTotals {
    /// Count one call with its outcome label and reported usage.
    pub fn add(&mut self, outcome: &str, usage: Option<LlmUsage>)
        requires
            old(self).calls < usize::MAX,
            old(self).adopted < usize::MAX,
            old(self).not_adopted < usize::MAX,
            old(self).abstained < usize::MAX,
            old(self).out_of_set < usize::MAX,
            old(self).failed < usize::MAX,
            old(self).calls_with_usage < usize::MAX,
            usage matches Some(u) ==> old(self).input_tokens + u.input_tokens <= u64::MAX
                && old(self).output_tokens + u.output_tokens <= u64::MAX,
        ensures
            final(self).calls == old(self).calls + 1,
            final(self).adopted == old(self).adopted + bump(outcome@, 0),
            final(self).not_adopted == old(self).not_adopted + bump(outcome@, 1),
            final(self).abstained == old(self).abstained + bump(outcome@, 2),
            final(self).out_of_set == old(self).out_of_set + bump(outcome@, 3),
            final(self).failed == old(self).failed + bump(outcome@, 4),
            final(self).calls_with_usage == old(self).calls_with_usage + if usage is Some { 1int } else { 0int },
            final(self).input_tokens == old(self).input_tokens + match usage {
                Some(u) => u.input_tokens as int,
                None => 0int,
            },
            final(self).output_tokens == old(self).output_tokens + match usage {
                Some(u) => u.output_tokens as int,
                None => 0int,
            },
    {
        proof {
            reveal_strlit("adopted");
            reveal_strlit("not_adopted");
            reveal_strlit("abstained");
            reveal_strlit("out_of_set");
            assert(ADOPTED@ == "adopted"@);
            assert(NOT_ADOPTED@ == "not_adopted"@);
        }
        self.calls = self.calls + 1;
        if str_eq(outcome, ADOPTED) {
            self.adopted = self.adopted + 1;
        } else if str_eq(outcome, NOT_ADOPTED) {
            self.not_adopted = self.not_adopted + 1;
        } else if str_eq(outcome, LlmOutcome::Abstained.as_str()) {
            self.abstained = self.abstained + 1;
        } else if str_eq(outcome, LlmOutcome::OutOfSet.as_str()) {
            self.out_of_set = self.out_of_set + 1;
        } else {
            self.failed = self.failed + 1;
        }
        if let Some(u) = usage {
            self.calls_with_usage = self.calls_with_usage + 1;
            self.input_tokens = self.input_tokens + u.input_tokens;
            self.output_tokens = self.output_tokens + u.output_tokens;
        }
    }
}


/// Each call lands in exactly one outcome counter, so after any sequence of
/// `add` calls the counters sum to the calls made.
pub proof fn lemma_each_call_counted_once(outcome: Seq<char>)
    ensures
        bump(outcome, 0) + bump(outcome, 1) + bump(outcome, 2) + bump(outcome, 3) + bump(outcome, 4) == 1,
{
}

/// The rules gave no category: the `uncategorized` placeholder of a full
/// cascade miss, or the catch-all rule's `uncategorized` subcategory.
pub open spec fn unanswered(category: Seq<char>, subcategory: Option<Seq<char>>) -> bool {
    category == "uncategorized"@ || subcategory == Some("uncategorized"@)
}

/// Whether the rules gave a verdict no category.
pub fn is_unanswered(category: &str, subcategory: Option<&str>) -> (r: bool)
    ensures
        r == unanswered(
            category@,
            match subcategory {
                Some(s) => Some(s@),
                None => None,
            },
        ),
{
    str_eq(category, "uncategorized") || match subcategory {
        Some(s) => str_eq(s, "uncategorized"),
        None => false,
    }
}

/// Whether the LLM fallback may revisit a verdict. Under `LowConfidence`, yes
/// when its confidence is at or below the threshold (`low_confidence`),
/// under `Unanswered` when the rules gave it no category.
pub fn llm_eligible(scope: LlmFallbackScope, category: &str, subcategory: Option<&str>, low_confidence: bool) -> (r:
    bool)
    ensures
        r == match scope {
            LlmFallbackScope::LowConfidence => low_confidence,
            LlmFallbackScope::Unanswered => unanswered(
                category@,
                match subcategory {
                    Some(s) => Some(s@),
                    None => None,
                },
            ),
        },
{
    match scope {
        LlmFallbackScope::LowConfidence => low_confidence,
        LlmFallbackScope::Unanswered => is_unanswered(category, subcategory),
    }
}

/// Positions of the eligible commits that are not merges, in order.
pub open spec fn pending_calls(eligible: Seq<bool>, merge: Seq<bool>) -> Seq<usize>
    decreases eligible.len(),
{
    if eligible.len() == 0 {
        Seq::empty()
    } else {
        let prev = pending_calls(eligible.drop_last(), merge);
        let i = eligible.len() - 1;
        if eligible.last() && !merge[i] {
            prev.push(i as usize)
        } else {
            prev
        }
    }
}

/// Eligible merge commits, which keep their rule verdict.
pub open spec fn skipped_merges(eligible: Seq<bool>, merge: Seq<bool>) -> nat
    decreases eligible.len(),
{
    if eligible.len() == 0 {
        0
    } else {
        skipped_merges(eligible.drop_last(), merge) + if eligible.last() && merge[eligible.len() - 1] {
            1nat
        } else {
            0nat
        }
    }
}

proof fn lemma_skipped_bound(eligible: Seq<bool>, merge: Seq<bool>)
    ensures
        skipped_merges(eligible, merge) <= eligible.len(),
    decreases eligible.len(),
{
    if eligible.len() > 0 {
        lemma_skipped_bound(eligible.drop_last(), merge);
    }
}

proof fn lemma_pending_calls_members(eligible: Seq<bool>, merge: Seq<bool>)
    requires
        eligible.len() <= merge.len(),
        eligible.len() <= usize::MAX,
    ensures
        forall|k: int|
            0 <= k < pending_calls(eligible, merge).len() ==> {
                let i = #[trigger] pending_calls(eligible, merge)[k] as int;
                0 <= i < eligible.len() && eligible[i] && !merge[i]
            },
        forall|i: int|
            0 <= i < eligible.len() && #[trigger] eligible[i] && !merge[i] ==> pending_calls(
                eligible,
                merge,
            ).contains(i as usize),
    decreases eligible.len(),
{
    if eligible.len() > 0 {
        let prev = eligible.drop_last();
        lemma_pending_calls_members(prev, merge);
        let n = eligible.len() - 1;
        assert forall|i: int|
            0 <= i < eligible.len() && #[trigger] eligible[i] && !merge[i] implies pending_calls(
                eligible,
                merge,
            ).contains(i as usize) by {
            if i < n {
                assert(prev[i] == eligible[i]);
                let k = choose|k: int|
                    0 <= k < pending_calls(prev, merge).len() && pending_calls(prev, merge)[k] == i as usize;
                assert(pending_calls(eligible, merge)[k] == i as usize);
            } else {
                assert(pending_calls(eligible, merge).last() == i as usize);
            }
        }
    }
}

/// A merge commit is never sent to the LLM, whatever the scope: every call
/// the fallback makes is on an eligible commit that is not a merge, and
/// every eligible commit that is not a merge gets a call.
pub proof fn lemma_merge_commits_never_reach_the_llm(eligible: Seq<bool>, merge: Seq<bool>)
    requires
        eligible.len() == merge.len(),
        eligible.len() <= usize::MAX,
    ensures
        forall|k: int|
            0 <= k < pending_calls(eligible, merge).len() ==> {
                let i = #[trigger] pending_calls(eligible, merge)[k] as int;
                0 <= i < eligible.len() && eligible[i] && !merge[i]
            },
        forall|i: int|
            0 <= i < eligible.len() && #[trigger] eligible[i] && !merge[i] ==> pending_calls(
                eligible,
                merge,
            ).contains(i as usize),
{
    lemma_pending_calls_members(eligible, merge);
}

/// Which commits the fallback calls the LLM on: the eligible ones that
/// are not merges; and how many eligible merges were skipped.
pub fn select_llm_calls(eligible: &[bool], merge: &[bool]) -> (r: (Vec<usize>, usize))
    requires
        eligible@.len() == merge@.len(),
    ensures
        r.0@ == pending_calls(eligible@, merge@),
        r.1 == skipped_merges(eligible@, merge@),
{
    let mut pending: Vec<usize> = Vec::new();
    let mut skipped: usize = 0;
    let mut i: usize = 0;
    while i < eligible.len()
        invariant
            i <= eligible@.len(),
            eligible@.len() == merge@.len(),
            pending@ == pending_calls(eligible@.take(i as int), merge@),
            skipped == skipped_merges(eligible@.take(i as int), merge@),
        decreases eligible@.len() - i,
    {
        proof {
            assert(eligible@.take(i as int + 1).drop_last() =~= eligible@.take(i as int));
            lemma_skipped_bound(eligible@.take(i as int), merge@);
        }
        if eligible[i] {
            if merge[i] {
                skipped = skipped + 1;
            } else {
                pending.push(i);
            }
        }
        i = i + 1;
    }
    assert(eligible@.take(eligible@.len() as int) =~= eligible@);
    (pending, skipped)
}

/// The outcome recorded for one call: an answer is adopted only when it
/// beats the rule verdict's confidence (`beats_rule`), otherwise kept out;
/// a call without an answer records its own outcome.
pub fn call_outcome(answered: bool, beats_rule: bool, outcome: LlmOutcome) -> (r: &'static str)
    ensures
        r@ == if answered {
            if beats_rule {
                "adopted"@
            } else {
                "not_adopted"@
            }
        } else {
            outcome_label(outcome)
        },
{
    if answered {
        if beats_rule {
            ADOPTED
        } else {
            NOT_ADOPTED
        }
    } else {
        outcome.as_str()
    }
}

/// A verdict is unanswered exactly when its category, or the catch-all
/// rule's subcategory, is `uncategorized`.
pub proof fn lemma_unanswered_verdicts(category: Seq<char>, subcategory: Option<Seq<char>>)
    ensures
        unanswered(category, subcategory) <==> (category == "uncategorized"@ || subcategory == Some(
            "uncategorized"@,
        )),
{
}

} // verus!
