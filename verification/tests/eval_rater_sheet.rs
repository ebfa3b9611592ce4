use tga::eval::repredict::{repredict_rows, resolve_verdict, RepredictError, ResolvedVerdict};
use tga::eval::tallies::{label_map, score_tallies, ScoreError, ScoreRow, UnknownLabel};
use std::path::PathBuf;

use tga::classify::trace::TraceTier;
use tga::eval::merges::{resolve_merge_flags, MergeFlagError};
use tga::eval::records::{StrataSummary, Stratum, StratumCounts};
use tga::eval::redact::{redact_emails, strip_trailers, try_redact_emails};
use tga::eval::repredict::{content_hash, provenance_path};
use tga::eval::sample::{author_hash, excerpt, paths_excerpt, sheet_order};
use tga::eval::score::{check_label, count_outcomes, is_no_answer, label_outcome, LabelCheck};
use tga::eval::subsample::{run_subsample, SubsampleError, SubsampleParams, SubsampleRow};
use tga::eval::verdict::{choose_verdict, choose_verdicts, stored_override, CarryPolicy, VerdictChoice};

#[test]
fn strips_identity_trailers() {
    let body = "Fix the parser.\n\
                CO-AUTHORED-BY: Jane Doe <jane@example.com>\n\
                Keeps the old path for v1.\n\
                Refs: #12\n\
                Signed-off-by: Joe Bloggs <joe@example.org>\n\
                cc: team@example.net\n\
                Reviewed-By : Ann <ann@example.com>";
    assert_eq!(
        strip_trailers(body),
        "Fix the parser.\nKeeps the old path for v1.\nRefs: #12"
    );
    assert_eq!(strip_trailers("Note: tested-by hand"), "Note: tested-by hand");
}

#[test]
fn redacts_emails() {
    assert_eq!(
        redact_emails("mail jane.doe+x@mail.example.com, or <b@c.io>."),
        "mail <email>, or <<email>>."
    );
    assert_eq!(
        redact_emails("thanks @jane, see a@localhost"),
        "thanks @jane, see a@localhost"
    );
    assert_eq!(redact_emails("naïve ü@x.de"), "naïve <email>");
}

#[test]
fn back_to_back_addresses_follow_the_byte_count() {
    assert_eq!(try_redact_emails("x@ü.io@b.io").as_deref(), Some("x@<email>"));
    assert_eq!(try_redact_emails("é@ab.cd@x.io").as_deref(), Some("<e<email>"));
    assert_eq!(try_redact_emails("a@bbbbbbbbbbbbbb.cc.@x.io"), None);
    assert_eq!(try_redact_emails("mail a@b.co").as_deref(), Some("mail <email>"));
}

#[test]
fn text_without_at_is_left_alone() {
    let s = "plain text, no addresses; dots. and <brackets>";
    assert_eq!(redact_emails(s), s);
}

#[test]
fn excerpt_marks_a_cut() {
    assert_eq!(excerpt("abcdef", 3), "abc…");
    assert_eq!(excerpt("abc", 3), "abc");
    assert_eq!(excerpt("ääää", 2), "ää…");
    assert_eq!(excerpt("", 0), "");
}

#[test]
fn author_hash_is_salted_and_normalised() {
    let a = author_hash("salt", "Jane@Example.com ");
    let b = author_hash("salt", "  jane@example.com");
    assert_eq!(a, b);
    assert_eq!(a.len(), 16);
    assert!(a.chars().all(|c| c.is_ascii_hexdigit() && !c.is_ascii_uppercase()));
    assert_ne!(a, author_hash("pepper", "jane@example.com"));
    let mut h = blake3::Hasher::new();
    h.update(b"salt");
    h.update(&[0]);
    h.update(b"jane@example.com");
    assert_eq!(a, h.finalize().to_hex()[..16].to_string());
}

#[test]
fn content_hash_is_blake3_hex() {
    assert_eq!(content_hash(b"abc"), blake3::hash(b"abc").to_hex().to_string());
    assert_eq!(
        content_hash(b""),
        "af1349b9f5f9a1a6a0404dea36dcc9499bcb25c9adc112b7cc9a93cae41f3262"
    );
}

#[test]
fn no_answer_labels() {
    assert!(is_no_answer("unclear"));
    assert!(is_no_answer("mixed"));
    assert!(is_no_answer("release_merge"));
    assert!(!is_no_answer("feature"));
    assert!(!is_no_answer("Unclear"));
}

#[test]
fn label_cells_are_normalised_and_checked() {
    let valid = vec!["feature".to_string(), "unclear".to_string()];
    assert_eq!(check_label("  Feature ", &valid), LabelCheck::Known("feature".into()));
    assert_eq!(check_label("   ", &valid), LabelCheck::Blank);
    assert_eq!(check_label("chore", &valid), LabelCheck::Unknown("chore".into()));
    assert_eq!(check_label("UNCLEAR", &valid), LabelCheck::Known("unclear".into()));
}

#[test]
fn outcomes_are_tallied_per_key_in_key_order() {
    let rows = vec![
        ("regex".to_string(), Some(true)),
        ("exact".to_string(), Some(false)),
        ("regex".to_string(), None),
        ("regex".to_string(), Some(false)),
        ("exact".to_string(), Some(true)),
    ];
    let c = count_outcomes(&rows);
    assert_eq!(c.len(), 2);
    assert_eq!((c[0].key.as_str(), c[0].n, c[0].correct, c[0].excluded), ("exact", 2, 1, 0));
    assert_eq!((c[1].key.as_str(), c[1].n, c[1].correct, c[1].excluded), ("regex", 2, 1, 1));
    assert!(count_outcomes(&[]).is_empty());
}

#[test]
fn stored_methods_outside_the_engine_map_to_tiers() {
    assert_eq!(stored_override("manual", TraceTier::Exact), Some((TraceTier::Manual, "manual_override")));
    assert_eq!(stored_override("llm_fallback", TraceTier::Exact), Some((TraceTier::Llm, "llm")));
    assert_eq!(
        stored_override("repo_category_fallback", TraceTier::Unclassified),
        Some((TraceTier::RepoCategory, "repo_category"))
    );
    assert_eq!(
        stored_override("external_source", TraceTier::Regex),
        Some((TraceTier::ExternalSource, "external_source"))
    );
    assert_eq!(stored_override("external_source", TraceTier::JiraProject), None);
    assert_eq!(stored_override("regex_rule", TraceTier::Regex), None);
}

#[test]
fn stripped_sheet_text_names_no_one() {
    let body = "Co-authored-by: A <a@x.org>\n  fix\r\n\tSigned-Off-By : B\r\n  \nReviewed-by: C\n";
    let out = strip_trailers(body);
    assert_eq!(out, "fix");
    let tokens = ["co-authored-by", "signed-off-by", "reviewed-by", "cc"];
    for line in out.lines() {
        let token = line.trim_start().split(':').next().unwrap_or("").trim_end().to_ascii_lowercase();
        assert!(!line.contains(':') || !tokens.contains(&token.as_str()));
    }
}

#[test]
fn stored_verdicts_are_carried_only_when_reached() {
    let p = CarryPolicy { use_llm: true, external: false };
    assert_eq!(
        choose_verdict(&p, Some(("bugfix", "llm_fallback")), TraceTier::CatchAll, "chore", true),
        VerdictChoice::Carried { tier: TraceTier::Llm, rule_id: "llm" }
    );
    assert_eq!(
        choose_verdict(&p, Some(("bugfix", "llm_fallback")), TraceTier::Exact, "chore", false),
        VerdictChoice::Rederived { superseded: true, drifted: false }
    );
    assert_eq!(
        choose_verdict(&p, Some(("bugfix", "external_source")), TraceTier::Regex, "chore", true),
        VerdictChoice::Rederived { superseded: true, drifted: false }
    );
    assert_eq!(
        choose_verdict(&p, Some(("bugfix", "regex_rule")), TraceTier::Regex, "chore", true),
        VerdictChoice::Rederived { superseded: false, drifted: true }
    );
    assert_eq!(
        choose_verdict(&p, None, TraceTier::Regex, "chore", true),
        VerdictChoice::Rederived { superseded: false, drifted: false }
    );
}

#[test]
fn batch_verdicts_count_drift_in_input_order() {
    let p = CarryPolicy { use_llm: false, external: true };
    let stored = vec![
        Some(("bugfix".to_string(), "regex_rule".to_string())),
        None,
        Some(("feature".to_string(), "manual".to_string())),
        Some(("chore".to_string(), "exact_rule".to_string())),
        Some(("docs".to_string(), "conventional".to_string())),
    ];
    let traced = vec![
        (TraceTier::Regex, "chore".to_string(), false),
        (TraceTier::Exact, "docs".to_string(), false),
        (TraceTier::CatchAll, "chore".to_string(), true),
        (TraceTier::Exact, "chore".to_string(), false),
    ];
    let (choices, drifted) = choose_verdicts(&p, &stored, &traced);
    assert_eq!(
        choices,
        vec![
            VerdictChoice::Rederived { superseded: false, drifted: true },
            VerdictChoice::Rederived { superseded: false, drifted: false },
            VerdictChoice::Carried { tier: TraceTier::Manual, rule_id: "manual_override" },
            VerdictChoice::Rederived { superseded: false, drifted: false },
        ]
    );
    assert_eq!(drifted, 1);
}

#[test]
fn merge_flags_come_from_rows_then_the_database() {
    assert_eq!(resolve_merge_flags(&[Some(true), Some(false)], None), Ok(vec![true, false]));
    assert_eq!(
        resolve_merge_flags(&[Some(true), None, None], None),
        Err(MergeFlagError::NoDatabase { unknown: 2 })
    );
    let stored = [None, Some(true), Some(false)];
    assert_eq!(
        resolve_merge_flags(&[Some(false), None, None], Some(&stored)),
        Ok(vec![false, true, false])
    );
    let stored = [None, None, None];
    assert_eq!(
        resolve_merge_flags(&[Some(false), None, None], Some(&stored)),
        Err(MergeFlagError::Missing { count: 2, first: 1 })
    );
}

fn params(size: usize, seed: u64) -> SubsampleParams {
    SubsampleParams {
        from: PathBuf::from("sample.jsonl"),
        strata: None,
        size,
        seed,
        db: None,
        out: PathBuf::from("out.jsonl"),
    }
}

fn summary() -> StrataSummary {
    StrataSummary {
        strata: vec![
            ("exact".to_string(), StratumCounts { population: 40, sampled: 4 }),
            ("regex_high".to_string(), StratumCounts { population: 60, sampled: 6 }),
        ],
        ..StrataSummary::default()
    }
}

fn rows() -> Vec<SubsampleRow> {
    (0..10)
        .map(|i| SubsampleRow {
            sha: format!("{i:040x}"),
            stratum: if i < 4 { Stratum::Exact } else { Stratum::RegexHigh },
        })
        .collect()
}

#[test]
fn subsample_takes_hamilton_shares() {
    let sel = run_subsample(&params(5, 3), &rows(), summary()).expect("subset");
    assert_eq!(sel.keep.iter().filter(|&&k| k).count(), 5);
    assert_eq!(sel.taken[Stratum::Exact.index()], 2);
    assert_eq!(sel.taken[Stratum::RegexHigh.index()], 3);
    let again = run_subsample(&params(5, 3), &rows(), summary()).expect("subset");
    assert_eq!(sel.keep, again.keep);
    let origin = sel.strata.subsample.expect("origin");
    assert_eq!((origin.seed, origin.size, origin.source_size), (3, 5, 10));
}

#[test]
fn subsample_ignores_the_order_of_source_rows() {
    let forward = rows();
    let mut backward = rows();
    backward.reverse();
    let a = run_subsample(&params(5, 11), &forward, summary()).expect("subset");
    let b = run_subsample(&params(5, 11), &backward, summary()).expect("subset");
    let mut kept_a: Vec<String> = forward
        .iter()
        .zip(a.keep.iter())
        .filter(|(_, &k)| k)
        .map(|(r, _)| r.sha.clone())
        .collect();
    let mut kept_b: Vec<String> = backward
        .iter()
        .zip(b.keep.iter())
        .filter(|(_, &k)| k)
        .map(|(r, _)| r.sha.clone())
        .collect();
    kept_a.sort();
    kept_b.sort();
    assert_eq!(kept_a.len(), 5);
    assert_eq!(kept_a, kept_b);
    assert_eq!(a.taken, b.taken);
}

#[test]
fn subsample_refuses_bad_inputs() {
    match run_subsample(&params(0, 1), &rows(), summary()) {
        Err(SubsampleError::SizeOutOfRange { size: 0, rows: 10 }) => {}
        other => panic!("unexpected: {other:?}"),
    }
    match run_subsample(&params(11, 1), &rows(), summary()) {
        Err(SubsampleError::SizeOutOfRange { size: 11, rows: 10 }) => {}
        other => panic!("unexpected: {other:?}"),
    }
    let mut dup = rows();
    dup[5].sha = dup[2].sha.clone();
    match run_subsample(&params(3, 1), &dup, summary()) {
        Err(SubsampleError::DuplicateSha(s)) => assert_eq!(s, dup[2].sha),
        other => panic!("unexpected: {other:?}"),
    }
    let mut other_stratum = rows();
    other_stratum[0].stratum = Stratum::Fuzzy;
    match run_subsample(&params(3, 1), &other_stratum, summary()) {
        Err(SubsampleError::MissingPopulation(Stratum::Fuzzy)) => {}
        other => panic!("unexpected: {other:?}"),
    }
}

#[test]
fn final_labels_score_against_the_prediction() {
    assert_eq!(label_outcome("feature", "Feature"), Some(true));
    assert_eq!(label_outcome("bugfix", "feature"), Some(false));
    assert_eq!(label_outcome("unclear", "feature"), None);
    assert_eq!(label_outcome("release_merge", "merge"), None);
}

#[test]
fn paths_cell_lists_eight_then_counts_the_rest() {
    assert_eq!(paths_excerpt(&[]), "");
    assert_eq!(paths_excerpt(&["a".to_string(), "b".to_string()]), "a; b");
    let many: Vec<String> = (0..19).map(|i| format!("p{i}")).collect();
    assert_eq!(
        paths_excerpt(&many),
        "p0; p1; p2; p3; p4; p5; p6; p7; (+11 more)"
    );
}

#[test]
fn sheet_rows_follow_the_salted_hash() {
    let shas: Vec<String> = ["aa", "bb", "cc", "dd", "ee"].iter().map(|s| s.to_string()).collect();
    let order = sheet_order("s1", &shas);
    let mut expected: Vec<usize> = (0..shas.len()).collect();
    expected.sort_by_cached_key(|&i| blake3::hash(format!("s1\0{}", shas[i]).as_bytes()).to_hex().to_string());
    assert_eq!(order, expected);
}

fn score_row(sha: &str, predicted: &str, rule: &str) -> ScoreRow {
    ScoreRow {
        sha: sha.into(),
        predicted: predicted.into(),
        rule_id: rule.into(),
        method: "regex".into(),
        stratum: "regex_high".into(),
    }
}

fn labels_of(pairs: &[(&str, &str)]) -> Vec<(String, String)> {
    pairs.iter().map(|(a, b)| (a.to_string(), b.to_string())).collect()
}

#[test]
fn a_second_rater_changes_no_score() {
    let rows = vec![
        score_row("a", "feature", "r1"),
        score_row("b", "bugfix", "r1"),
        score_row("c", "docs", "r2"),
    ];
    let merge = vec![false, false, false];
    let first = labels_of(&[("a", "feature"), ("b", "feature"), ("c", "unclear")]);
    let second = labels_of(&[("a", "bugfix"), ("b", "bugfix"), ("c", "docs")]);
    let adj = labels_of(&[]);
    let one = score_tallies(&rows, &merge, &[first.clone()], &adj).expect("scores");
    let two = score_tallies(&rows, &merge, &[first, second], &adj).expect("scores");
    assert_eq!(one.unresolved, 0);
    assert_eq!(two.unresolved, 3);
    assert_eq!(one.kept, two.kept);
    assert_eq!(one.finals, two.finals);
    assert_eq!(one.outcomes, two.outcomes);
    assert_eq!(
        (one.labelled, one.scored, one.unclear, one.mixed, one.release_merge),
        (two.labelled, two.scored, two.unclear, two.mixed, two.release_merge)
    );
    assert_eq!(one.confusion, two.confusion);
    assert_eq!(one.per_rule.len(), two.per_rule.len());
    for (x, y) in one.per_rule.iter().zip(two.per_rule.iter()) {
        assert_eq!((&x.key, x.n, x.correct), (&y.key, y.n, y.correct));
    }
}

#[test]
fn scoring_keeps_non_merges_and_prefers_adjudication() {
    let rows = vec![
        score_row("a", "feature", "r1"),
        score_row("b", "bugfix", "r1"),
        score_row("m", "merge", "r2"),
        score_row("c", "docs", "r2"),
        score_row("d", "chore", "r2"),
    ];
    let merge = vec![false, false, true, false, false];
    let first = labels_of(&[("a", "feature"), ("b", "feature"), ("m", "merge"), ("c", "unclear")]);
    let second = labels_of(&[("a", "feature"), ("b", "bugfix"), ("c", "docs")]);
    let adj = labels_of(&[("c", "docs")]);
    let t = score_tallies(&rows, &merge, &[first.clone(), second.clone()], &adj).expect("scores");
    assert_eq!((t.sample_size, t.merges_excluded), (5, 1));
    assert_eq!(t.kept, vec![0, 1, 3, 4]);
    assert_eq!(
        t.finals,
        vec![Some("feature".to_string()), Some("feature".to_string()), Some("docs".to_string()), None]
    );
    assert_eq!(t.outcomes, vec![Some(Some(true)), Some(Some(false)), Some(Some(true)), None]);
    assert_eq!((t.labelled, t.scored, t.unclear, t.mixed, t.release_merge), (3, 3, 0, 0, 0));
    // `b` disagrees and is not adjudicated; `c` is settled by adjudication.
    assert_eq!(t.unresolved, 1);
    assert_eq!(t.per_rule.len(), 2);
    assert_eq!((t.per_rule[0].key.as_str(), t.per_rule[0].n, t.per_rule[0].correct), ("r1", 2, 1));
    assert_eq!((t.per_rule[1].key.as_str(), t.per_rule[1].n, t.per_rule[1].correct), ("r2", 1, 1));
    let mut cells = t.confusion.clone();
    cells.sort();
    assert_eq!(
        cells,
        vec![
            ("bugfix".to_string(), "feature".to_string(), 1),
            ("docs".to_string(), "docs".to_string(), 1),
            ("feature".to_string(), "feature".to_string(), 1),
        ]
    );

    assert_eq!(score_tallies(&rows, &merge, &[], &adj).unwrap_err(), ScoreError::LabelFileCount(0));
    let stray = labels_of(&[("zz", "docs")]);
    assert_eq!(
        score_tallies(&rows, &merge, &[first.clone()], &stray).unwrap_err(),
        ScoreError::OutsideSample("zz".into())
    );
    let unsettled = labels_of(&[("d", "chore")]);
    assert_eq!(
        score_tallies(&rows, &merge, &[first], &unsettled).unwrap_err(),
        ScoreError::AdjudicatedBlank("d".into())
    );
}

#[test]
fn repredict_replaces_the_prediction_fields_and_counts_changes() {
    let rv = |tier, rule: &str, cat: &str, conf: f64, carried, superseded| ResolvedVerdict {
        tier,
        rule_id: rule.into(),
        category: cat.into(),
        confidence_bits: f64::to_bits(conf),
        carried,
        superseded,
    };
    let cats = vec!["feature".to_string(), "bugfix".to_string(), "docs".to_string()];
    let own = vec![Some(false), None, None];
    let res = vec![
        rv(TraceTier::Exact, "cc-feat", "feature", 0.95, false, false),
        rv(TraceTier::Llm, "llm", "chore", 0.7, true, false),
        rv(TraceTier::Unclassified, "none", "uncategorized", 0.0, false, true),
    ];
    let (rows, c) = repredict_rows(&cats, &own, &res, &[Some(true), Some(true), Some(false)]).expect("ok");
    assert_eq!(rows[0].method, "exact");
    assert_eq!(rows[0].is_merge, Some(false));
    assert_eq!(rows[1].method, "llm");
    assert_eq!(rows[1].predicted_category, "chore");
    assert_eq!(rows[1].is_merge, Some(true));
    assert_eq!(rows[2].confidence_bits, 0.0f64.to_bits());
    assert_eq!((c.rows, c.changed, c.abstentions, c.superseded), (3, 2, 1, 1));
    assert_eq!(c.carried, vec![("llm".to_string(), 1)]);
    assert_eq!(
        repredict_rows(&cats, &own, &res, &[Some(true), None, None]).unwrap_err(),
        RepredictError::Missing { count: 2, first: 1 }
    );
    assert_eq!(repredict_rows(&[], &[], &[], &[]).unwrap_err(), RepredictError::EmptySample);

    let carried = resolve_verdict(
        VerdictChoice::Carried { tier: TraceTier::Manual, rule_id: "manual_override" },
        ("docs", 1.0f64.to_bits()),
        (TraceTier::Regex, "r", "feature", 0.5f64.to_bits()),
    );
    assert_eq!((carried.tier, carried.category.as_str(), carried.carried), (TraceTier::Manual, "docs", true));
    let fresh = resolve_verdict(
        VerdictChoice::Rederived { superseded: true, drifted: false },
        ("docs", 1.0f64.to_bits()),
        (TraceTier::Regex, "r", "feature", 0.5f64.to_bits()),
    );
    assert_eq!((fresh.tier, fresh.rule_id.as_str(), fresh.superseded), (TraceTier::Regex, "r", true));
}

#[test]
fn label_files_skip_blanks_refuse_unknown_labels_and_let_later_rows_win() {
    let valid = vec!["feature".to_string(), "bugfix".to_string(), "unclear".to_string()];
    let rows = label_map(&[("a".into(), " Feature ".into()), (" b ".into(), "".into()), (" a".into(), "BUGFIX".into()), ("c".into(), "unclear".into())], &valid)
        .expect("known");
    assert_eq!(rows, vec![("a".to_string(), "bugfix".to_string()), ("c".to_string(), "unclear".to_string())]);
    assert_eq!(
        label_map(&[("x".into(), "feature".into()), ("y ".into(), "Nonsense".into())], &valid).unwrap_err(),
        UnknownLabel { sha: "y ".into(), label: "nonsense".into() }
    );
}

#[test]
fn provenance_file_sits_beside_the_output() {
    assert_eq!(provenance_path("out/x.jsonl"), "out/x.provenance.json");
    assert_eq!(provenance_path("x"), "x.provenance.json");
}
