//! JIRA issues and the offline part of the JIRA client: its base URL,
//! credentials, default project and request URLs.

use vstd::prelude::*;
use crate::config::JiraConfig;
use crate::text::{chars_of, string_from_chars, strip_trailing_slashes, trailing_slashes};

verus! {

/// Minimal JIRA issue shape used for enrichment.
#[derive(Clone, Debug, PartialEq, Eq)]
pub struct JiraIssue {
    /// Issue key, e.g. `PROJ-123`.
    pub key: String,
    /// Short summary.
    pub summary: String,
    /// Current status name, e.g. `Done`.
    pub status: String,
    /// Issue type, e.g. `Bug`, `Story`, `Task`.
    pub issue_type: String,
}

/// What a JIRA client is built from: the base URL without trailing
/// slashes, the basic-auth pair when both halves are configured, and the
/// default project key (empty when unset).
#[derive(Clone, Debug)]
pub struct JiraSettings {
    /// Base URL without trailing `/`.
    pub base_url: String,
    /// Username and token, when both are configured.
    pub credentials: Option<(String, String)>,
    /// Default project key.
    pub project_key: String,
}

impl JiraSettings {
    /// Default project key supplied at construction.
    pub fn project_key(&self) -> (k: &str)
        ensures
            k@ == self.project_key@,
    {
        self.project_key.as_str()
    }
}

fn copy(s: &String) -> (r: String)
    ensures
        r@ == s@,
{
    String::from_str(s.as_str())
}

/// Read the client settings from `config`: an error when `jira.url` is
/// missing.
pub fn jira_settings(config: &JiraConfig) -> (r: Result<JiraSettings, String>)
    ensures
        match config.url {
            None => r is Err && r->Err_0@ == "jira.url is required"@,
            Some(u) => r is Ok && r->Ok_0.base_url@ == u@.take(u@.len() - trailing_slashes(u@)) && match (
                config.username,
                config.token,
            ) {
                (Some(n), Some(t)) => r->Ok_0.credentials matches Some((a, b)) && a@ == n@ && b@ == t@,
                _ => r->Ok_0.credentials is None,
            } && r->Ok_0.project_key@ == match config.project_key {
                Some(k) => k@,
                None => Seq::empty(),
            },
        },
{
    let url = match &config.url {
        None => return Err(String::from_str("jira.url is required")),
        Some(u) => u,
    };
    let base = String::from_str(strip_trailing_slashes(url.as_str()));
    let credentials = match (&config.username, &config.token) {
        (Some(u), Some(t)) => Some((copy(u), copy(t))),
        _ => None,
    };
    let project_key = match &config.project_key {
        Some(k) => copy(k),
        None => String::new(),
    };
    Ok(JiraSettings { base_url: base, credentials, project_key })
}

/// URL of one issue: `{base}/rest/api/3/issue/{key}`.
pub fn issue_url(settings: &JiraSettings, key: &str) -> (u: String)
    ensures
        u@ == settings.base_url@ + "/rest/api/3/issue/"@ + key@,
{
    let mut v = chars_of(settings.base_url.as_str());
    let mut mid = chars_of("/rest/api/3/issue/");
    v.append(&mut mid);
    let mut k = chars_of(key);
    v.append(&mut k);
    string_from_chars(v.as_slice())
}

} // verus!
