use tga::classify::defaults::default_rules;
use tga::classify::run::{
    check_requested_shas, fresh, run_step, verdict_sources, RunAction, RunEvent, ShaError, VerdictSource,
};
use tga::classify::llm_prompt::{
    reply_span, resolve_category, restricted_system_prompt, CategoryResolution, LlmOutcome, LlmUsage, ABSTAIN_LABEL,
    SYSTEM_PROMPT,
};
use tga::classify::pipeline::{configured_categories, llm_categories};
use tga::classify::pipeline_llm::{call_outcome, is_unanswered, llm_eligible, select_llm_calls, LlmUsageTotals};
use tga::config::llm::LlmFallbackScope;
use tga::classify::rules::{merge_category_defs, merge_order, priority_order, CategoryDef};
use tga::classify::trace::{RuleSources, RuleTrace, TraceTier, CATCH_ALL_RULE_ID};
use tga::eval::config_categories;

fn allowed() -> Vec<CategoryDef> {
    vec![
        CategoryDef {
            name: "bug_fix".into(),
            description: Some("Corrects wrong\n  behaviour.".into()),
        },
        CategoryDef {
            name: "enablement".into(),
            description: None,
        },
    ]
}

#[test]
fn restricted_prompt_lists_only_configured_categories() {
    let p = restricted_system_prompt(&allowed());
    assert!(p.contains("- bug_fix: Corrects wrong behaviour.\n"), "{p}");
    assert!(p.contains("- enablement\n"), "{p}");
    assert!(p.contains(&format!("- {ABSTAIN_LABEL}: ")), "{p}");
    assert!(p.contains("<one of: bug_fix|enablement|unclear>"), "{p}");
    let offered: Vec<&str> = p.lines().filter(|l| l.starts_with("- ")).collect();
    assert_eq!(offered.len(), 3, "exactly two categories plus abstain: {p}");
    for builtin in ["feature|", "bugfix|", "chore", "documentation", "refactor|"] {
        assert!(!p.contains(builtin), "built-in `{builtin}` leaked: {p}");
    }
}

#[test]
fn restricted_prompt_skips_blank_descriptions() {
    let p = restricted_system_prompt(&[CategoryDef {
        name: "x".into(),
        description: Some(" \t ".into()),
    }]);
    assert!(p.starts_with("You are a git commit classifier. Assign the commit to exactly one of these categories:\n- x\n- unclear: "), "{p}");
    assert!(p.ends_with("No prose, no markdown."), "{p}");
    assert!(p.contains("<one of: x|unclear>"), "{p}");
}

#[test]
fn shared_system_prompt_contains_complexity_instruction() {
    assert!(
        SYSTEM_PROMPT.contains("complexity"),
        "shared SYSTEM_PROMPT must instruct the model to return a complexity score"
    );
}

#[test]
fn out_of_set_reply_is_an_abstention() {
    let cats = allowed();
    assert_eq!(resolve_category("chore", Some(&cats)), CategoryResolution::OutOfSet);
}

#[test]
fn abstain_label_is_an_abstention() {
    let cats = allowed();
    assert_eq!(resolve_category("UNCLEAR", Some(&cats)), CategoryResolution::Abstained);
    assert_eq!(
        resolve_category(" Bug_Fix ", Some(&cats)),
        CategoryResolution::Accepted { category: "bug_fix".into(), keep_subcategory: false }
    );
}

#[test]
fn unrestricted_reply_is_kept() {
    assert_eq!(
        resolve_category(" chore", None),
        CategoryResolution::Accepted { category: "chore".into(), keep_subcategory: true }
    );
    let fenced = "```json\n{\"category\":\"chore\"}\n```";
    assert_eq!(reply_span(fenced), "{\"category\":\"chore\"}");
    assert_eq!(reply_span("  not json  "), "not json");
    assert_eq!(reply_span("} then {"), "} then {");
}

#[test]
fn usage_totals_count_each_outcome() {
    let mut t = LlmUsageTotals::default();
    t.add("adopted", Some(LlmUsage { input_tokens: 120, output_tokens: 9 }));
    t.add("not_adopted", None);
    t.add(LlmOutcome::Abstained.as_str(), Some(LlmUsage { input_tokens: 1, output_tokens: 1 }));
    t.add(LlmOutcome::OutOfSet.as_str(), None);
    t.add(LlmOutcome::Failed.as_str(), None);
    t.add("something else", None);
    assert_eq!(t.calls, 6);
    assert_eq!((t.adopted, t.not_adopted, t.abstained, t.out_of_set, t.failed), (1, 1, 1, 1, 2));
    assert_eq!((t.calls_with_usage, t.input_tokens, t.output_tokens), (2, 121, 10));
}

fn names(defs: &[CategoryDef]) -> Vec<(String, Option<String>)> {
    defs.iter().map(|d| (d.name.clone(), d.description.clone())).collect()
}

#[test]
fn categories_section_merges_by_name() {
    let base = vec![
        CategoryDef { name: "bug_fix".into(), description: Some("old".into()) },
        CategoryDef::new("feature"),
    ];
    let overlay = vec![CategoryDef { name: "bug_fix".into(), description: Some("new".into()) }];
    let merged = merge_category_defs(base, overlay);
    assert_eq!(
        names(&merged),
        vec![("bug_fix".into(), Some("new".into())), ("feature".into(), None)]
    );
}

#[test]
fn configured_categories_follow_the_rules_then_the_definitions() {
    let rule_cats = vec!["platform".to_string(), "enablement".to_string(), "platform".to_string()];
    let defs = vec![CategoryDef {
        name: "enablement".into(),
        description: Some("Tooling that makes other teams faster.".into()),
    }];
    let out = configured_categories(&rule_cats, defs);
    assert_eq!(
        names(&out),
        vec![
            ("platform".into(), None),
            ("enablement".into(), Some("Tooling that makes other teams faster.".into()))
        ]
    );
    let v = config_categories(&rule_cats, vec![CategoryDef::new("docs")]);
    assert_eq!(v, vec!["platform", "enablement", "docs"]);
}

#[test]
fn llm_categories_follow_extend_defaults() {
    // The rules file: one rule in category `platform`, one declared category.
    let rule_cats = vec!["platform".to_string()];
    let declared = || {
        vec![CategoryDef {
            name: "enablement".into(),
            description: Some("Tooling that makes other teams faster.".into()),
        }]
    };
    let cats = llm_categories(false, true, &rule_cats, declared()).expect("restricted");
    let names: Vec<&str> = cats.iter().map(|c| c.name.as_str()).collect();
    assert_eq!(names, ["platform", "enablement"]);
    assert_eq!(
        cats[1].description.as_deref(),
        Some("Tooling that makes other teams faster.")
    );
    assert_eq!(config_categories(&rule_cats, declared()), ["platform", "enablement"]);

    // `extend_defaults: true`, and no rules file at all: the built-in list.
    assert!(llm_categories(true, true, &rule_cats, declared()).is_none());
    assert!(llm_categories(false, false, &[], Vec::new()).is_none());
}

#[test]
fn rules_merge_by_id_last_wins_first_position() {
    let ids: Vec<String> = ["cc-feat", "cc-fix", "deploy", "cc-fix", "new"].iter().map(|s| s.to_string()).collect();
    assert_eq!(merge_order(&ids), vec![0, 3, 2, 4]);
    assert!(merge_order(&[]).is_empty());
}

#[test]
fn rules_sort_by_descending_priority_stably() {
    assert_eq!(priority_order(&[100, 115, 100, 50, 115]), vec![1, 4, 0, 2, 3]);
    assert!(priority_order(&[]).is_empty());
}

#[test]
fn rule_trace_qualifies_by_source() {
    let mut sources = RuleSources::builtin();
    sources.record_file("team/rules.yaml", &["deploy".to_string()]);
    let file = RuleTrace::for_rule(TraceTier::Exact, "deploy", &sources);
    assert_eq!(file.rule_id, "team/rules.yaml#deploy");
    assert_eq!(file.tier, TraceTier::Exact);
    let builtin = RuleTrace::for_rule(TraceTier::Regex, "cc-fix", &sources);
    assert_eq!(builtin.rule_id, "builtin#cc-fix");
    let unknown = RuleTrace::for_rule(TraceTier::Regex, "r", &RuleSources::default());
    assert_eq!(unknown.rule_id, "ruleset#r");
}

#[test]
fn the_last_file_listing_a_rule_is_its_source() {
    let ids = |xs: &[&str]| xs.iter().map(|s| s.to_string()).collect::<Vec<String>>();
    let mut sources = RuleSources::builtin();
    sources.record_file("a.yaml", &ids(&["x", "y"]));
    sources.record_file("b.yaml", &ids(&["y", "z"]));
    sources.record_file("c.yaml", &ids(&["z"]));
    assert_eq!(sources.source_of("x"), "a.yaml");
    assert_eq!(sources.source_of("y"), "b.yaml");
    assert_eq!(sources.source_of("z"), "c.yaml");
    assert_eq!(sources.source_of("w"), "builtin");
    let mut plain = RuleSources::default();
    plain.record_file("a.yaml", &ids(&["x"]));
    plain.record_file("b.yaml", &ids(&[]));
    assert_eq!(plain.source_of("x"), "a.yaml");
    assert_eq!(plain.source_of("w"), "ruleset");
}

#[test]
fn rule_trace_names_the_builtin_catch_all() {
    let builtin = RuleTrace::for_rule(TraceTier::Regex, CATCH_ALL_RULE_ID, &RuleSources::builtin());
    let expected = RuleTrace::new(TraceTier::CatchAll, "catch_all");
    assert_eq!((builtin.tier, builtin.rule_id), (expected.tier, expected.rule_id));
    let mut sources = RuleSources::builtin();
    sources.record_file("r.yaml", &[CATCH_ALL_RULE_ID.to_string()]);
    let custom = RuleTrace::for_rule(TraceTier::Regex, CATCH_ALL_RULE_ID, &sources);
    assert_eq!(custom.tier, TraceTier::CatchAll);
    assert_eq!(custom.rule_id, "r.yaml#catch-all");
}

#[test]
fn tier_labels_are_snake_case() {
    assert_eq!(TraceTier::WeightedSum.as_str(), "weighted_sum");
    assert_eq!(TraceTier::Unclassified.as_str(), "unclassified");
    assert_eq!(RuleSources::builtin().source_of("anything"), "builtin");
}

#[test]
fn llm_fallback_selection() {
    assert!(is_unanswered("uncategorized", None));
    assert!(is_unanswered("maintenance", Some("uncategorized")));
    assert!(!is_unanswered("feature", Some("api")));
    assert!(llm_eligible(LlmFallbackScope::LowConfidence, "feature", None, true));
    assert!(!llm_eligible(LlmFallbackScope::LowConfidence, "uncategorized", None, false));
    assert!(llm_eligible(LlmFallbackScope::Unanswered, "uncategorized", None, false));
    assert!(!llm_eligible(LlmFallbackScope::Unanswered, "feature", None, true));
    let (pending, skipped) = select_llm_calls(&[true, true, false, true], &[false, true, true, false]);
    assert_eq!(pending, vec![0, 3]);
    assert_eq!(skipped, 1);
}

#[test]
fn call_outcomes_follow_the_overwrite_guard() {
    assert_eq!(call_outcome(true, true, LlmOutcome::Answered), "adopted");
    assert_eq!(call_outcome(true, false, LlmOutcome::Answered), "not_adopted");
    assert_eq!(call_outcome(false, false, LlmOutcome::OutOfSet), "out_of_set");
    assert_eq!(call_outcome(false, true, LlmOutcome::Failed), "failed");
}

#[test]
fn listed_shas_are_checked_before_anything_is_written() {
    let v = |xs: &[&str]| xs.iter().map(|s| s.to_string()).collect::<Vec<String>>();
    let known = v(&["a1", "b2", "c3", "d4"]);
    assert_eq!(check_requested_shas(&[], &known, &known, false), Err(ShaError::Empty));
    assert_eq!(
        check_requested_shas(&v(&["a1", "zz", "yy"]), &known, &[], true),
        Err(ShaError::Unknown(v(&["zz", "yy"])))
    );
    assert_eq!(
        check_requested_shas(&v(&["d4", "b2", "a1", "d4"]), &known, &v(&["a1"]), true),
        Err(ShaError::OutsideFilter(v(&["b2", "d4"])))
    );
    assert_eq!(check_requested_shas(&v(&["d4", "b2"]), &known, &v(&["a1"]), false), Ok(()));
    assert_eq!(check_requested_shas(&v(&["a1"]), &known, &v(&["a1", "c3"]), true), Ok(()));

    let s = fresh(true, true);
    let (s, a) = run_step(s, RunEvent::Begin);
    assert_eq!(a, RunAction::CheckShas);
    let (refused, a) = run_step(s, RunEvent::ShasChecked(false));
    assert_eq!(a, RunAction::Refuse);
    assert_eq!(run_step(refused, RunEvent::RulesApplied).1, RunAction::Finish);
    let (s, a) = run_step(s, RunEvent::ShasChecked(true));
    assert_eq!(a, RunAction::ReadCandidates);
    assert_eq!(run_step(s, RunEvent::CandidatesRead { count: 3, filter_ok: false }).1, RunAction::Refuse);
    assert_eq!(run_step(s, RunEvent::CandidatesRead { count: 0, filter_ok: true }).1, RunAction::Finish);
    let (s, a) = run_step(s, RunEvent::CandidatesRead { count: 3, filter_ok: true });
    assert_eq!(a, RunAction::ApplyRules);
    let (s, a) = run_step(s, RunEvent::RulesApplied);
    assert_eq!(a, RunAction::CallLlm);
    let (s, a) = run_step(s, RunEvent::LlmFinished);
    assert_eq!(a, RunAction::Write);
    assert_eq!(run_step(s, RunEvent::Written).1, RunAction::Finish);
    // Rules reported before any check passed: refused.
    assert_eq!(run_step(fresh(false, false), RunEvent::RulesApplied).1, RunAction::Refuse);
}

#[test]
fn lib_default_rules_is_non_empty() {
    let rs = default_rules();
    assert!(!rs.rules.is_empty());
    let ids: Vec<&str> = rs.rules.iter().map(|r| r.id.as_str()).collect();
    assert!(ids.contains(&"cc-feat"));
    assert!(ids.contains(&"cc-fix"));
    assert!(ids.contains(&"jira-ticket"));
}

#[test]
fn mod_default_rules_is_non_empty() {
    let rs = default_rules();
    assert!(!rs.rules.is_empty());
    let ids: Vec<&str> = rs.rules.iter().map(|r| r.id.as_str()).collect();
    assert!(ids.contains(&"cc-feat"));
    assert!(ids.contains(&"cc-fix"));
    assert!(ids.contains(&"jira-ticket"));
}

#[test]
fn default_rules_keep_their_priorities_and_confidences() {
    let rs = default_rules();
    assert_eq!(rs.version.as_deref(), Some("1.0"));
    assert!(rs.extend_defaults);
    assert_eq!(rs.rules.len(), 15);
    let b = rs.rules.iter().find(|r| r.id == "breaking-change").expect("rule");
    assert_eq!((b.priority, b.confidence_hundredths, b.subcategory.as_deref()), (110, 90, Some("api")));
    assert_eq!(b.patterns, vec![r"(?i)breaking[\s-]change".to_string()]);
    let fix = &rs.rules[1];
    assert_eq!(fix.keywords, vec!["fix:", "bugfix:", "hotfix"]);
    assert_eq!(fix.patterns, vec![r"(?i)^\s*fix(\([^)]*\))?!?:".to_string()]);
    for r in &rs.rules {
        for p in &r.patterns {
            assert!(regex::Regex::new(p).is_ok(), "{p}");
        }
    }
}

#[test]
fn white_space_set_matches_the_standard_library() {
    for v in 0u32..=0x10FFFF {
        if let Some(c) = char::from_u32(v) {
            assert_eq!(tga::text::is_whitespace(c), c.is_whitespace(), "U+{v:04X}");
        }
    }
}

#[test]
fn overrides_beat_signals_and_signals_beat_rules() {
    let o = [true, true, false, false];
    let g = [true, false, true, false];
    assert_eq!(
        verdict_sources(&o, &g, true),
        vec![VerdictSource::Override, VerdictSource::Override, VerdictSource::External, VerdictSource::Rules]
    );
    assert_eq!(
        verdict_sources(&o, &g, false),
        vec![VerdictSource::Override, VerdictSource::Override, VerdictSource::Rules, VerdictSource::Rules]
    );
}
