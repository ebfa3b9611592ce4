use tga::collect::azdo::client::{AzdoError, AzureDevOpsClient};
use tga::collect::azdo::pr_fetcher::{completed_merge_sha, encode_segment, extract_pr_ids, pr_author, pr_state, AdoPrReviewer};
use tga::config::azdo::{default_ticket_regex, is_cloud_url, AzureDevOpsConfig};
use tga::error::TgaError;

fn cfg(url: &str, pat: &str, project: &str) -> AzureDevOpsConfig {
    AzureDevOpsConfig {
        organization_url: url.to_string(),
        pat: pat.to_string(),
        project: project.to_string(),
        ticket_regex: default_ticket_regex(),
        team_keys: vec![],
        fetch_on_reference: true,
    }
}

fn sample_config() -> AzureDevOpsConfig {
    AzureDevOpsConfig {
        organization_url: "https://dev.azure.com/myorg".into(),
        pat: "secret-pat".into(),
        project: "MyProject".into(),
        ticket_regex: r"AB#(\d+)".into(),
        team_keys: vec![],
        fetch_on_reference: true,
    }
}

#[test]
fn cloud_url_accepted() {
    let c = cfg("https://dev.azure.com/myorg", "secret-pat", "MyProject");
    c.validate().expect("dev.azure.com URL should validate");
}

#[test]
fn visualstudio_url_accepted() {
    let c = cfg("https://myorg.visualstudio.com", "secret-pat", "MyProject");
    c.validate().expect("visualstudio.com URL should validate");
}

#[test]
fn on_prem_url_rejected() {
    let c = cfg("https://tfs.mycompany.com/tfs", "secret-pat", "MyProject");
    let err = c.validate().expect_err("on-prem URL must be rejected");
    let msg = err.message();
    assert!(
        msg.contains("on-premises") || msg.contains("not an Azure DevOps cloud URL"),
        "unexpected error message: {msg}"
    );
}

#[test]
fn empty_pat_rejected() {
    let c = cfg("https://dev.azure.com/myorg", "   ", "MyProject");
    let err = c.validate().expect_err("whitespace PAT must be rejected");
    assert!(err.message().contains("pat"));
}

#[test]
fn empty_url_rejected() {
    let c = cfg("", "secret", "MyProject");
    c.validate().expect_err("empty url must be rejected");
}

#[test]
fn empty_project_rejected() {
    let c = cfg("https://dev.azure.com/myorg", "secret", "");
    c.validate().expect_err("empty project must be rejected");
}

#[test]
fn invalid_ticket_regex_rejected() {
    let mut c = cfg("https://dev.azure.com/myorg", "secret", "MyProject");
    c.ticket_regex = "(unclosed".to_string();
    let err = c.validate().expect_err("invalid regex must be rejected");
    let msg = err.message();
    assert!(
        msg.contains("ticket_regex") && msg.contains("failed to compile"),
        "unexpected error message: {msg}"
    );
}

#[test]
fn ticket_regex_without_capture_group_rejected() {
    let mut c = cfg("https://dev.azure.com/myorg", "secret", "MyProject");
    c.ticket_regex = r"AB#\d+".to_string();
    let err = c
        .validate()
        .expect_err("regex without capture group must be rejected");
    let msg = err.message();
    assert!(
        msg.contains("ticket_regex") && msg.contains("no capture group"),
        "unexpected error message: {msg}"
    );
}

#[test]
fn default_ticket_regex_is_case_insensitive_ab_hash() {
    assert_eq!(default_ticket_regex(), r"(?i)AB#(\d+)");
    let re = cfg("https://dev.azure.com/myorg", "secret", "MyProject")
        .compile_ticket_regex()
        .expect("default compiles");
    assert!(re.is_match("AB#42"));
    assert!(re.is_match("ab#42"));
    assert!(re.is_match("Ab#42"));
}

#[test]
fn custom_ticket_regex_compiles() {
    let mut c = cfg("https://dev.azure.com/myorg", "secret", "MyProject");
    c.ticket_regex = r"\B#(\d{4,8})\b".to_string();
    let re = c
        .compile_ticket_regex()
        .expect("custom #NNNNNN regex should compile");
    let caps = re.captures("see #123080 and #99 here").expect("matches");
    assert_eq!(caps.get(0).unwrap().as_str(), "#123080");
    assert_eq!(caps.get(1).unwrap().as_str(), "123080");
}

#[test]
fn validation_messages_name_the_field() {
    let err = cfg("", "secret", "MyProject").validate().unwrap_err();
    assert!(matches!(err, TgaError::ConfigError(_)));
    assert_eq!(err.message(), "pm.azure_devops.organization_url must not be empty");
    let err = cfg("https://dev.azure.com/o", "secret", "  ").validate().unwrap_err();
    assert!(err.message().contains("project"), "{}", err.message());
    let err = cfg("https://tfs.example.com", "x", "P").validate().unwrap_err();
    assert!(err.message().contains("\"https://tfs.example.com\""), "{}", err.message());
}

#[test]
fn cloud_url_check_ignores_case() {
    assert!(is_cloud_url("HTTPS://DEV.AZURE.COM/Org"));
    assert!(is_cloud_url("https://x.VisualStudio.com"));
    assert!(!is_cloud_url("https://visualstudio.com"));
    assert!(!is_cloud_url("https://tfs.local/tfs"));
}

#[test]
fn stub_connection_info_has_phase_1() {
    let client = AzureDevOpsClient::new(sample_config());
    let info = client.test_connection_stub();
    assert_eq!(info.phase, 1);
    assert_eq!(info.status, "stub");
    assert_eq!(info.organization_url, "https://dev.azure.com/myorg");
}

#[test]
fn validate_credentials_accepts_non_empty_pat() {
    let client = AzureDevOpsClient::new(sample_config());
    client
        .validate_credentials()
        .expect("non-empty PAT should validate");
}

#[test]
fn validate_credentials_rejects_empty_pat() {
    let mut cfg = sample_config();
    cfg.pat = "   ".into();
    let client = AzureDevOpsClient::new(cfg);
    let err = client
        .validate_credentials()
        .expect_err("whitespace PAT should be rejected");
    assert!(matches!(err, AzdoError::InvalidCredentials(_)));
}

#[test]
fn org_url_drops_trailing_slashes() {
    let mut c = sample_config();
    c.organization_url = "https://dev.azure.com/myorg//".into();
    let client = AzureDevOpsClient::new(c);
    assert_eq!(client.org_url(), "https://dev.azure.com/myorg");
    assert_eq!(client.config().project, "MyProject");
}

#[test]
fn extracts_unique_pr_ids() {
    let messages = vec![
        "Merged PR 100: do thing",
        "Some other commit",
        "merged pr 200: another (case-insensitive)",
        "Merged PR 100: duplicate",
        "Refactored: Merged PR 300: nested phrase",
    ];
    let ids = extract_pr_ids(&messages);
    assert_eq!(ids, vec![100, 200, 300]);
}

#[test]
fn ignores_non_merge_lines() {
    let messages = vec!["fix: typo", "PR #42", "merge branch 'foo'"];
    let ids = extract_pr_ids(&messages);
    assert!(ids.is_empty(), "no merge-PR pattern should match: {ids:?}");
}

#[test]
fn extract_pr_ids_handles_empty_input() {
    let ids: Vec<i64> = extract_pr_ids(&Vec::<&str>::new());
    assert!(ids.is_empty());
}

#[test]
fn pr_ids_come_out_sorted() {
    let ids = extract_pr_ids(&["Merged PR 7: a", "Merged PR 3: b", "x Merged PR 5: c", "Merged PR 9 no colon"]);
    assert_eq!(ids, vec![3, 5, 7]);
}

#[test]
fn status_maps_to_pr_state_string() {
    assert_eq!(pr_state("completed"), "merged");
    assert_eq!(pr_state("abandoned"), "closed");
    assert_eq!(pr_state("active"), "open");
    assert_eq!(pr_state("COMPLETED"), "merged");
}

#[test]
fn project_segment_is_percent_encoded() {
    assert_eq!(encode_segment("My Project"), "My%20Project");
    assert_eq!(encode_segment("a-b_c.d~e"), "a-b_c.d~e");
    assert_eq!(encode_segment("é"), "%C3%A9");
}

#[test]
fn pr_raw_treats_empty_last_merge_commit_as_none() {
    // `lastMergeCommit: {}` carries no commit id; `{"commitId": ""}` an
    // empty one. Both are missing on a completed pull request.
    assert!(completed_merge_sha("completed", None).is_none());
    assert!(completed_merge_sha("completed", Some(String::new())).is_none());
}

#[test]
fn pr_raw_drops_merge_sha_for_non_completed_status() {
    let sha = "feedfacecafef00d1234567890abcdef12345678";
    for status in ["active", "abandoned", "notSet", "", "ACTIVE"] {
        assert!(
            completed_merge_sha(status, Some(sha.to_string())).is_none(),
            "non-completed status {status:?} must not expose a merge SHA"
        );
    }
    for status in ["completed", "Completed", "COMPLETED"] {
        assert_eq!(
            completed_merge_sha(status, Some(sha.to_string())).as_deref(),
            Some(sha),
            "completed status {status:?} must expose the merge SHA"
        );
    }
}

#[test]
fn author_and_reviewer_ids_fall_back_to_display_names() {
    assert_eq!(pr_author(Some("alice@contoso.com".into()), Some("Alice".into())), "alice@contoso.com");
    assert_eq!(pr_author(None, Some("Alice".into())), "Alice");
    assert_eq!(pr_author(None, None), "");
    let r = AdoPrReviewer::from_fields(None, Some("Bob".into()), 10, true, false);
    assert_eq!((r.reviewer_id.as_str(), r.display_name.as_str(), r.vote), ("Bob", "Bob", 10));
    assert!(r.is_required && !r.is_container);
    let r = AdoPrReviewer::from_fields(Some("bob@contoso.com".into()), None, -5, false, true);
    assert_eq!((r.reviewer_id.as_str(), r.display_name.as_str(), r.vote), ("bob@contoso.com", "", -5));
}

#[test]
fn cloud_check_reads_the_host() {
    assert!(!is_cloud_url("https://tfs.corp.com/dev.azure.com/x"));
    assert!(!is_cloud_url("https://dev.azure.com.evil.com/org"));
    assert!(!is_cloud_url("https://tfs.corp.com/?next=x.visualstudio.com"));
    assert!(is_cloud_url("https://user@dev.azure.com:443/org"));
    assert!(is_cloud_url("dev.azure.com/org"));
    assert!(is_cloud_url("https://org.visualstudio.com#frag"));
    let err = cfg("https://tfs.corp.com/dev.azure.com/x", "p", "P").validate().unwrap_err();
    assert!(err.message().contains("not an Azure DevOps cloud URL"), "{}", err.message());
}
