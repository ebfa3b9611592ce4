use tga::collect::diff::{map_change_type, record_line, ChangeType, DeltaStatus, FileDiff};
use tga::collect::github::{page_is_last, pull_state, retry_action, split_repo_slug, AttemptResult, RetryAction};
use tga::collect::jira::{issue_url, jira_settings};
use tga::collect::collector::{week_plan, CollectEvent, CollectionStats};
use tga::collect::identity::IdentityResolver;
use tga::collect::window::{walk_step, WalkStep, window_writes};
use tga::config::{JiraConfig, TeamConfig, TeamMember};
use tga::storage::migrations::{pending_migrations, Migration};

#[test]
fn repo_slug_splits_at_the_first_slash() {
    assert_eq!(split_repo_slug(Some("owner/name")), Ok(("owner".into(), "name".into())));
    assert_eq!(split_repo_slug(Some("a/b/c")), Ok(("a".into(), "b/c".into())));
    assert_eq!(
        split_repo_slug(Some("nope")),
        Err("github.repo must be 'owner/name', got 'nope'".into())
    );
    assert_eq!(split_repo_slug(None), Err("github.repo is required (owner/name)".into()));
}

#[test]
fn pull_request_states() {
    assert_eq!(pull_state(true, "closed"), "merged");
    assert_eq!(pull_state(false, "closed"), "closed");
    assert_eq!(pull_state(false, "open"), "open");
    assert!(page_is_last(99));
    assert!(!page_is_last(100));
}

#[test]
fn retries_back_off_exponentially_then_stop() {
    assert_eq!(retry_action(AttemptResult::Status(502), 0), RetryAction::RetryAfter(1000));
    assert_eq!(retry_action(AttemptResult::Status(429), 1), RetryAction::RetryAfter(2000));
    assert_eq!(retry_action(AttemptResult::TransportError, 2), RetryAction::RetryAfter(4000));
    assert_eq!(retry_action(AttemptResult::Status(503), 3), RetryAction::Return);
    assert_eq!(retry_action(AttemptResult::TransportError, 3), RetryAction::Fail);
    assert_eq!(retry_action(AttemptResult::Status(404), 0), RetryAction::Return);
    assert_eq!(retry_action(AttemptResult::Status(200), 1), RetryAction::Return);
}

#[test]
fn jira_settings_trim_the_url_and_pair_credentials() {
    let cfg = JiraConfig {
        url: Some("https://jira.example.com//".into()),
        username: Some("u".into()),
        token: None,
        project_key: Some("API".into()),
    };
    let s = jira_settings(&cfg).expect("settings");
    assert_eq!(s.base_url, "https://jira.example.com");
    assert!(s.credentials.is_none());
    assert_eq!(s.project_key(), "API");
    assert_eq!(issue_url(&s, "API-1"), "https://jira.example.com/rest/api/3/issue/API-1");
    let none = JiraConfig { url: None, username: None, token: None, project_key: None };
    assert_eq!(jira_settings(&none).unwrap_err(), "jira.url is required");
}

#[test]
fn diff_lines_count_into_the_first_matching_file() {
    let mut files = vec![
        FileDiff { path: "a.rs".into(), change_type: ChangeType::Modified, insertions: 0, deletions: 0 },
        FileDiff { path: "b.rs".into(), change_type: ChangeType::Added, insertions: u32::MAX, deletions: 0 },
    ];
    record_line(&mut files, "a.rs", '+');
    record_line(&mut files, "a.rs", '-');
    record_line(&mut files, "a.rs", ' ');
    record_line(&mut files, "b.rs", '+');
    record_line(&mut files, "zzz", '+');
    assert_eq!((files[0].insertions, files[0].deletions), (1, 1));
    assert_eq!(files[1].insertions, u32::MAX);
    assert_eq!(map_change_type(DeltaStatus::Copied), ChangeType::Added);
    assert_eq!(map_change_type(DeltaStatus::Typechange), ChangeType::Modified);
    assert_eq!(map_change_type(DeltaStatus::Renamed), ChangeType::Renamed);
}

#[test]
fn only_newer_migrations_are_pending() {
    let ms = [
        Migration { version: 1, name: "a", sql: "" },
        Migration { version: 2, name: "b", sql: "" },
        Migration { version: 5, name: "c", sql: "" },
    ];
    assert_eq!(pending_migrations(&ms, 0), vec![0, 1, 2]);
    assert_eq!(pending_migrations(&ms, 2), vec![2]);
    assert!(pending_migrations(&ms, 5).is_empty());
}

fn make_team() -> TeamConfig {
    TeamConfig {
        members: vec![TeamMember {
            name: "Bob Smith".into(),
            email: "bob@example.com".into(),
            aliases: vec!["bsmith@example.com".into()],
        }],
        aliases: vec![("bobby".into(), "Bob Smith".into())],
    }
}

#[test]
fn exact_email_alias_match() {
    let r = IdentityResolver::new(Some(&make_team()));
    let (n, e) = r.resolve("Whoever", "bsmith@example.com", None);
    assert_eq!(n, "Bob Smith");
    assert_eq!(e, "bob@example.com");
}

#[test]
fn exact_name_alias_match() {
    let r = IdentityResolver::new(Some(&make_team()));
    let (n, e) = r.resolve("bobby", "x@y.com", None);
    assert_eq!(n, "Bob Smith");
    assert_eq!(e, "bob@example.com");
}

#[test]
fn no_match_returns_input() {
    let r = IdentityResolver::new(Some(&make_team()));
    let (n, e) = r.resolve("Zelda Q", "zelda@nowhere.test", None);
    assert_eq!(n, "Zelda Q");
    assert_eq!(e, "zelda@nowhere.test");
}

#[test]
fn empty_team_passthrough() {
    let r = IdentityResolver::new(None);
    let (n, e) = r.resolve("Anyone", "anyone@x.com", None);
    assert_eq!(n, "Anyone");
    assert_eq!(e, "anyone@x.com");
}

#[test]
fn exact_aliases_beat_the_fuzzy_match_and_ignore_case() {
    let r = IdentityResolver::new(Some(&make_team()));
    // Upper-case e-mail alias still matches exactly; the fuzzy pick is unused.
    let (n, e) = r.resolve("Whoever", "BSMITH@Example.com", Some(0));
    assert_eq!((n.as_str(), e.as_str()), ("Bob Smith", "bob@example.com"));
    // No alias: the member the fuzzy tier picked.
    let (n, e) = r.resolve("Bob Smyth", "unknown@elsewhere.com", Some(0));
    assert_eq!((n.as_str(), e.as_str()), ("Bob Smith", "bob@example.com"));
}

#[test]
fn alias_map_takes_the_first_address_as_canonical_email() {
    let map = vec![
        ("Ada Lovelace".to_string(), vec!["ada".to_string(), "ada@calc.org".to_string(), "al@x.org".to_string()]),
        ("Solo".to_string(), vec!["solo-login".to_string()]),
    ];
    let r = IdentityResolver::from_alias_map(&map);
    assert_eq!(
        r.members(),
        &vec![
            ("Ada Lovelace".to_string(), "ada@calc.org".to_string()),
            ("Solo".to_string(), String::new())
        ]
    );
    assert_eq!(r.resolve("x", "AL@X.ORG", None), ("Ada Lovelace".to_string(), "ada@calc.org".to_string()));
    assert_eq!(r.resolve("solo", "s@t.io", None), ("Solo".to_string(), String::new()));
    assert_eq!(r.resolve("SOLO-LOGIN", "s@t.io", None), ("Solo".to_string(), String::new()));
}

#[test]
fn walk_stops_below_the_window_and_skips_above_it() {
    let (since, until) = (Some(100), Some(200));
    assert_eq!(walk_step(Some(250), since, until, false, false), WalkStep::Skip);
    assert_eq!(walk_step(Some(200), since, until, false, false), WalkStep::Record);
    assert_eq!(walk_step(Some(150), since, until, true, true), WalkStep::Skip);
    assert_eq!(walk_step(Some(150), since, until, true, false), WalkStep::Record);
    assert_eq!(walk_step(Some(100), since, until, false, false), WalkStep::Record);
    assert_eq!(walk_step(Some(99), since, until, false, false), WalkStep::Stop);
    assert_eq!(walk_step(None, since, until, false, false), WalkStep::Skip);
    assert_eq!(walk_step(Some(-5), None, None, false, false), WalkStep::Record);

    // A newest-first walk: everything after the first stop is out of window.
    let times = [Some(300), Some(180), None, Some(120), Some(90), Some(80)];
    let steps: Vec<WalkStep> = times.iter().map(|t| walk_step(*t, since, until, false, false)).collect();
    let stop = steps.iter().position(|s| *s == WalkStep::Stop).expect("stops");
    assert_eq!(stop, 4);
    assert!(steps[stop..].iter().all(|s| *s != WalkStep::Record));
}

#[test]
fn collected_weeks_are_skipped_unless_forced() {
    let weeks = [(2024, 1), (2024, 2), (2025, 1)];
    let done = [(2024, 2), (2023, 1)];
    assert_eq!(week_plan(&weeks, &done, false), vec![true, false, true]);
    assert_eq!(week_plan(&weeks, &done, true), vec![true, true, true]);
}

#[test]
fn a_failing_repository_is_recorded_and_the_run_goes_on() {
    let mut s = CollectionStats::default();
    s.record(CollectEvent::RepoFailed("failed to open repo /x: not found".into()));
    s.record(CollectEvent::WeekSkipped);
    s.record(CollectEvent::Collected { commits: 7, week: true, record_error: None });
    s.record(CollectEvent::Collected { commits: 3, week: false, record_error: Some("record".into()) });
    s.record(CollectEvent::Failed("collection failed".into()));
    assert_eq!((s.commits_collected, s.weeks_collected, s.weeks_skipped), (10, 1, 1));
    assert_eq!(s.errors, vec!["failed to open repo /x: not found", "record", "collection failed"]);
}

#[test]
fn a_second_walk_over_the_window_writes_nothing() {
    let ts = [Some(50), Some(40), None, Some(30), Some(20), Some(5)];
    let merges = [false, true, false, false, false, false];
    let shas: Vec<String> = ["e", "d", "c", "b", "b", "a"].iter().map(|s| s.to_string()).collect();
    let table = vec!["d".to_string()];
    let first = window_writes(&ts, &merges, &shas, &table, Some(10), Some(45), false);
    // `e` is too new, `d` is already held, `c` has no timestamp, the second
    // `b` repeats the first, and `a` is past the stop.
    assert_eq!(first, vec![3]);
    let mut after = table.clone();
    after.extend(first.iter().map(|&i| shas[i].clone()));
    assert!(window_writes(&ts, &merges, &shas, &after, Some(10), Some(45), false).is_empty());
}
