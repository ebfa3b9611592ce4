//! Rule tracing: name the rule behind each classification verdict.
//!
//! Per-rule precision needs to know which rule fired; the name is stable
//! across runs of the same configuration and never reaches the database.

use vstd::prelude::*;
use crate::text::{chars_of, str_eq, string_from_chars};

verus! {

/// Rule id of the built-in lowest-priority catch-all regex rule.
pub const CATCH_ALL_RULE_ID: &'static str = "catch-all";

/// Source label for rules compiled into the binary.
pub const BUILTIN_SOURCE: &'static str = "builtin";

/// Source label for rules whose origin the engine was not told.
pub const UNKNOWN_SOURCE: &'static str = "ruleset";

/// The cascade tier that produced a verdict.
#[derive(Clone, Copy, Debug, PartialEq, Eq, Structural, Hash, PartialOrd, Ord)]
pub enum TraceTier {
    /// A manual override row.
    Manual,
    /// An exact-keyword rule.
    Exact,
    /// A PM issue-type mapping.
    IssueType,
    /// A JIRA project-key mapping.
    JiraProject,
    /// A regex rule other than the catch-all.
    Regex,
    /// The lowest-priority catch-all regex rule.
    CatchAll,
    /// The weighted-sum signal model.
    WeightedSum,
    /// A fuzzy heuristic.
    Fuzzy,
    /// An external ticket source (JIRA / GitHub Issues).
    ExternalSource,
    /// The LLM fallback.
    Llm,
    /// The `repo_categories` fallback.
    RepoCategory,
    /// No tier matched.
    Unclassified,
}

/// Stable snake_case label of a tier.
pub open spec fn tier_label(t: TraceTier) -> Seq<char> {
    match t {
        TraceTier::Manual => "manual"@,
        TraceTier::Exact => "exact"@,
        TraceTier::IssueType => "issue_type"@,
        TraceTier::JiraProject => "jira_project"@,
        TraceTier::Regex => "regex"@,
        TraceTier::CatchAll => "catch_all"@,
        TraceTier::WeightedSum => "weighted_sum"@,
        TraceTier::Fuzzy => "fuzzy"@,
        TraceTier::ExternalSource => "external_source"@,
        TraceTier::Llm => "llm"@,
        TraceTier::RepoCategory => "repo_category"@,
        TraceTier::Unclassified => "unclassified"@,
    }
}

impl TraceTier {
    /// Stable snake_case label, identical to the serialised form.
    pub fn as_str(self) -> (s: &'static str)
        ensures
            s@ == tier_label(self),
    {
        match self {
            TraceTier::Manual => "manual",
            TraceTier::Exact => "exact",
            TraceTier::IssueType => "issue_type",
            TraceTier::JiraProject => "jira_project",
            TraceTier::Regex => "regex",
            TraceTier::CatchAll => "catch_all",
            TraceTier::WeightedSum => "weighted_sum",
            TraceTier::Fuzzy => "fuzzy",
            TraceTier::ExternalSource => "external_source",
            TraceTier::Llm => "llm",
            TraceTier::RepoCategory => "repo_category",
            TraceTier::Unclassified => "unclassified",
        }
    }
}

/// Names the rule behind one verdict.
#[derive(Clone, Debug)]
pub struct RuleTrace {
    /// Tier that produced the verdict.
    pub tier: TraceTier,
    /// Stable identifier of the rule within that tier.
    pub rule_id: String,
}

/// The trace of a rule: built-in catch-all as its own tier, every other
/// exact or regex rule as `source#id`.
pub open spec fn rule_trace_of(tier: TraceTier, id: Seq<char>, source: Seq<char>) -> (TraceTier, Seq<char>) {
    if id == "catch-all"@ && tier == TraceTier::Regex {
        if source == "builtin"@ {
            (TraceTier::CatchAll, "catch_all"@)
        } else {
            (TraceTier::CatchAll, qualified(source, id))
        }
    } else {
        (tier, qualified(source, id))
    }
}

impl RuleTrace {
    /// Trace for a tier whose rule id is a fixed label.
    pub fn new(tier: TraceTier, rule_id: &str) -> (t: Self)
        ensures
            t.tier == tier,
            t.rule_id@ == rule_id@,
    {
        RuleTrace { tier, rule_id: String::from_str(rule_id) }
    }

    /// Trace for an exact or regex rule with id `rule_id`, resolving its
    /// source file: the built-in catch-all becomes tier `CatchAll` with id
    /// `catch_all`; a rules file that redefines `catch-all` keeps its
    /// source-qualified id but still reports the catch-all tier.
    pub fn for_rule(tier: TraceTier, rule_id: &str, sources: &RuleSources) -> (t: Self)
        ensures
            (t.tier, t.rule_id@) == rule_trace_of(tier, rule_id@, sources.source_label(rule_id@)),
    {
        let source = sources.source_of(rule_id);
        let mut qualified_id = String::from_str(source);
        qualified_id.append("#");
        qualified_id.append(rule_id);
        proof {
            reveal_strlit("#");
            assert(qualified_id@ =~= qualified(source@, rule_id@));
        }
        if str_eq(rule_id, CATCH_ALL_RULE_ID) && tier == TraceTier::Regex {
            if str_eq(source, BUILTIN_SOURCE) {
                return RuleTrace::new(TraceTier::CatchAll, "catch_all");
            }
            return RuleTrace { tier: TraceTier::CatchAll, rule_id: qualified_id };
        }
        RuleTrace { tier, rule_id: qualified_id }
    }
}

/// Where each rule of an engine's rule set came from: rule id to the rules
/// file that last defined it, each id once; ids not listed report the
/// fallback label.
#[derive(Clone, Debug)]
pub struct RuleSources {
    by_id: Vec<(String, String)>,
    fallback: &'static str,
}

/// The source recorded for `id` among `entries` (the first entry with that
/// id), if any.
pub open spec fn recorded_source(entries: Seq<(String, String)>, id: Seq<char>) -> Option<Seq<char>>
    decreases entries.len(),
{
    if entries.len() == 0 {
        None
    } else if entries[0].0@ == id {
        Some(entries[0].1@)
    } else {
        recorded_source(entries.drop_first(), id)
    }
}

/// `source#id`.
pub open spec fn qualified(source: Seq<char>, id: Seq<char>) -> Seq<char> {
    source + seq!['#'] + id
}

impl Default for RuleSources {
    fn default() -> (s: Self)
        ensures
            forall|id: Seq<char>| #[trigger] s.source_label(id) == "ruleset"@,
    {
        RuleSources::unknown()
    }
}

impl RuleSources {
    /// The source label of `id`: the recorded file, else the fallback.
    pub closed spec fn source_label(&self, id: Seq<char>) -> Seq<char> {
        match recorded_source(self.by_id@, id) {
            Some(s) => s,
            None => self.fallback@,
        }
    }

    /// Sources for a rule set whose unrecorded ids are the built-ins.
    pub fn builtin() -> (s: Self)
        ensures
            forall|id: Seq<char>| #[trigger] s.source_label(id) == "builtin"@,
    {
        RuleSources { by_id: Vec::new(), fallback: "builtin" }
    }

    /// Sources for an engine built without them: every id reports
    /// `ruleset`.
    pub fn unknown() -> (s: Self)
        ensures
            forall|id: Seq<char>| #[trigger] s.source_label(id) == "ruleset"@,
    {
        RuleSources { by_id: Vec::new(), fallback: "ruleset" }
    }

    /// Record that every rule id in `rule_ids` was (re)defined by the rules
    /// file labelled `path`. Later calls win.
    pub fn record_file(&mut self, path: &str, rule_ids: &[String])
        ensures
            forall|id: Seq<char>|
                #[trigger] final(self).source_label(id) == if exists|k: int| 0 <= k < rule_ids.len() && rule_ids[k]@ == id {
                    path@
                } else {
                    old(self).source_label(id)
                },
    {
        let ghost start = *self;
        let mut k: usize = 0;
        while k < rule_ids.len()
            invariant
                k <= rule_ids.len(),
                self.fallback == start.fallback,
                forall|id: Seq<char>|
                    #[trigger] self.source_label(id) == if exists|q: int| 0 <= q < k && rule_ids[q]@ == id {
                        path@
                    } else {
                        start.source_label(id)
                    },
            decreases rule_ids.len() - k,
        {
            let ghost before = *self;
            self.set_source(rule_ids[k].as_str(), path);
            proof {
                assert forall|id: Seq<char>|
                    #[trigger] self.source_label(id) == if exists|q: int| 0 <= q < k + 1 && rule_ids[q]@ == id {
                        path@
                    } else {
                        start.source_label(id)
                    } by {
                    if id == rule_ids[k as int]@ {
                        assert(exists|q: int| 0 <= q < k + 1 && rule_ids[q]@ == id);
                    } else {
                        if exists|q: int| 0 <= q < k + 1 && rule_ids[q]@ == id {
                            let q = choose|q: int| 0 <= q < k + 1 && rule_ids[q]@ == id;
                            assert(q < k);
                        }
                        assert(before.source_label(id) == self.source_label(id));
                    }
                }
            }
            k = k + 1;
        }
    }

    /// Set the recorded source of one id.
    fn set_source(&mut self, id: &str, path: &str)
        ensures
            final(self).fallback == old(self).fallback,
            final(self).source_label(id@) == path@,
            forall|other: Seq<char>| other != id@ ==> #[trigger] final(self).source_label(other) == old(self).source_label(other),
    {
        let ghost old_entries = self.by_id@;
        let mut q: usize = 0;
        let mut entries: Vec<(String, String)> = Vec::new();
        let mut found = false;
        assert(old_entries.skip(0) =~= old_entries);
        while q < self.by_id.len()
            invariant
                self.by_id@ == old_entries,
                q <= old_entries.len(),
                entries.len() == q,
                !found ==> forall|x: Seq<char>| recorded_source(old_entries, x) == (if recorded_source(entries@, x) is Some {
                    recorded_source(entries@, x)
                } else {
                    recorded_source(old_entries.skip(q as int), x)
                }),
                !found ==> recorded_source(entries@, id@) is None,
                found ==> recorded_source(entries@, id@) == Some(path@),
                found ==> forall|x: Seq<char>| x != id@ ==> recorded_source(old_entries, x) == (if recorded_source(entries@, x) is Some {
                    recorded_source(entries@, x)
                } else {
                    recorded_source(old_entries.skip(q as int), x)
                }),
            decreases old_entries.len() - q,
        {
            let key = self.by_id[q].0.clone();
            let same = !found && str_eq(key.as_str(), id);
            let value = if same {
                String::from_str(path)
            } else {
                self.by_id[q].1.clone()
            };
            let ghost prev = entries@;
            entries.push((key, value));
            proof {
                lemma_recorded_push(prev, entries@.last(), old_entries, q as int);
            }
            if same {
                found = true;
            }
            q = q + 1;
        }
        if !found {
            let ghost prev = entries@;
            entries.push((String::from_str(id), String::from_str(path)));
            proof {
                lemma_recorded_append(prev, entries@.last());
            }
        }
        self.by_id = entries;
        proof {
            assert(old_entries.skip(old_entries.len() as int) =~= Seq::<(String, String)>::empty());
        }
    }

    /// The source label for `rule_id`.
    pub fn source_of(&self, rule_id: &str) -> (s: &str)
        ensures
            s@ == self.source_label(rule_id@),
    {
        let mut q: usize = 0;
        assert(self.by_id@.skip(0) =~= self.by_id@);
        while q < self.by_id.len()
            invariant
                q <= self.by_id@.len(),
                recorded_source(self.by_id@, rule_id@) == recorded_source(self.by_id@.skip(q as int), rule_id@),
            decreases self.by_id.len() - q,
        {
            proof {
                assert(self.by_id@.skip(q as int).drop_first() == self.by_id@.skip(q as int + 1));
                assert(self.by_id@.skip(q as int)[0] == self.by_id@[q as int]);
            }
            if str_eq(self.by_id[q].0.as_str(), rule_id) {
                return self.by_id[q].1.as_str();
            }
            q = q + 1;
        }
        assert(self.by_id@.skip(q as int) =~= Seq::<(String, String)>::empty());
        self.fallback
    }
}

proof fn lemma_recorded_push(prev: Seq<(String, String)>, e: (String, String), all: Seq<(String, String)>, q: int)
    requires
        0 <= q < all.len(),
    ensures
        forall|x: Seq<char>| #[trigger] recorded_source(prev.push(e), x) == if recorded_source(prev, x) is Some {
            recorded_source(prev, x)
        } else if e.0@ == x {
            Some(e.1@)
        } else {
            None
        },
        forall|x: Seq<char>| #[trigger] recorded_source(all.skip(q), x) == if all[q].0@ == x {
            Some(all[q].1@)
        } else {
            recorded_source(all.skip(q + 1), x)
        },
{
    assert forall|x: Seq<char>| #[trigger] recorded_source(prev.push(e), x) == if recorded_source(prev, x) is Some {
        recorded_source(prev, x)
    } else if e.0@ == x {
        Some(e.1@)
    } else {
        None
    } by {
        lemma_recorded_append_one(prev, e, x);
    }
    assert forall|x: Seq<char>| #[trigger] recorded_source(all.skip(q), x) == if all[q].0@ == x {
        Some(all[q].1@)
    } else {
        recorded_source(all.skip(q + 1), x)
    } by {
        assert(all.skip(q)[0] == all[q]);
        assert(all.skip(q).drop_first() == all.skip(q + 1));
    }
}

proof fn lemma_recorded_append(prev: Seq<(String, String)>, e: (String, String))
    ensures
        forall|x: Seq<char>| #[trigger] recorded_source(prev.push(e), x) == if recorded_source(prev, x) is Some {
            recorded_source(prev, x)
        } else if e.0@ == x {
            Some(e.1@)
        } else {
            None
        },
{
    assert forall|x: Seq<char>| #[trigger] recorded_source(prev.push(e), x) == if recorded_source(prev, x) is Some {
        recorded_source(prev, x)
    } else if e.0@ == x {
        Some(e.1@)
    } else {
        None
    } by {
        lemma_recorded_append_one(prev, e, x);
    }
}

proof fn lemma_recorded_append_one(prev: Seq<(String, String)>, e: (String, String), x: Seq<char>)
    ensures
        recorded_source(prev.push(e), x) == if recorded_source(prev, x) is Some {
            recorded_source(prev, x)
        } else if e.0@ == x {
            Some(e.1@)
        } else {
            None
        },
    decreases prev.len(),
{
    let p = prev.push(e);
    if prev.len() > 0 {
        assert(p.drop_first() == prev.drop_first().push(e));
        assert(p[0] == prev[0]);
        lemma_recorded_append_one(prev.drop_first(), e, x);
        if prev[0].0@ != x {
            assert(recorded_source(p, x) == recorded_source(prev.drop_first().push(e), x));
            assert(recorded_source(prev, x) == recorded_source(prev.drop_first(), x));
        }
    } else {
        assert(p.drop_first() =~= Seq::<(String, String)>::empty());
        assert(p[0] == e);
        assert(recorded_source(p.drop_first(), x) is None);
    }
}

/// The label after recording `files` (each a path with its rule ids) in
/// order over a start whose unrecorded label is `fallback`: the last file
/// that lists `id`, else the fallback.
pub open spec fn label_after(fallback: Seq<char>, files: Seq<(Seq<char>, Seq<Seq<char>>)>, id: Seq<char>) -> Seq<
    char,
>
    decreases files.len(),
{
    if files.len() == 0 {
        fallback
    } else if files.last().1.contains(id) {
        files.last().0
    } else {
        label_after(fallback, files.drop_last(), id)
    }
}

/// Recording rules files one after another: the source of a rule id is the
/// last file that (re)defines it, and `builtin` or `ruleset` (whichever the
/// sources started from) for an id no file lists. `states[j + 1]` is
/// `states[j]` after recording `files[j]`, as `record_file` states it.
pub proof fn lemma_later_files_win(
    states: Seq<RuleSources>,
    files: Seq<(Seq<char>, Seq<Seq<char>>)>,
    fallback: Seq<char>,
)
    requires
        states.len() == files.len() + 1,
        forall|id: Seq<char>| #[trigger] states[0].source_label(id) == fallback,
        forall|j: int, id: Seq<char>|
            0 <= j < files.len() ==> #[trigger] states[j + 1].source_label(id) == if files[j].1.contains(id) {
                files[j].0
            } else {
                states[j].source_label(id)
            },
    ensures
        forall|id: Seq<char>| #[trigger] states.last().source_label(id) == label_after(fallback, files, id),
    decreases files.len(),
{
    if files.len() > 0 {
        let ps = states.drop_last();
        let pf = files.drop_last();
        assert forall|j: int, id: Seq<char>| 0 <= j < pf.len() implies #[trigger] ps[j + 1].source_label(id) == if pf[j].1.contains(id) {
            pf[j].0
        } else {
            ps[j].source_label(id)
        } by {
            assert(ps[j + 1] == states[j + 1]);
            assert(ps[j] == states[j]);
            assert(pf[j] == files[j]);
            assert(states[j + 1].source_label(id) == if files[j].1.contains(id) {
                files[j].0
            } else {
                states[j].source_label(id)
            });
        }
        assert(ps[0] == states[0]);
        lemma_later_files_win(ps, pf, fallback);
        assert forall|id: Seq<char>| #[trigger] states.last().source_label(id) == label_after(fallback, files, id) by {
            let n = files.len() - 1;
            assert(states.last() == states[n + 1]);
            assert(states[n + 1].source_label(id) == if files[n].1.contains(id) {
                files[n].0
            } else {
                states[n].source_label(id)
            });
            assert(ps.last() == states[n]);
        }
    }
}

/// A rule's trace: the built-in catch-all regex rule is traced as the
/// catch-all tier under the bare id `catch_all`; a catch-all rule from a
/// file keeps the catch-all tier under `file#catch-all`; every other rule
/// keeps its tier, under its id qualified by its source as `source#id`.
pub proof fn lemma_rule_traces(tier: TraceTier, id: Seq<char>, source: Seq<char>)
    ensures
        id == "catch-all"@ && tier == TraceTier::Regex && source == "builtin"@ ==> rule_trace_of(tier, id, source) == (
            TraceTier::CatchAll,
            "catch_all"@,
        ),
        id == "catch-all"@ && tier == TraceTier::Regex && source != "builtin"@ ==> rule_trace_of(tier, id, source)
            == (TraceTier::CatchAll, source + seq!['#'] + id),
        !(id == "catch-all"@ && tier == TraceTier::Regex) ==> rule_trace_of(tier, id, source) == (
            tier,
            source + seq!['#'] + id,
        ),
{
}

} // verus!
