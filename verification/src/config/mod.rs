//! Configuration records and the checks made on them at load time.

use vstd::prelude::*;
use std::path::PathBuf;

pub mod azdo;
pub mod host;
pub mod llm;

verus! {

/// Analysis settings.
#[derive(Clone, Debug, Default)]
pub struct AnalysisConfig {
    /// ML-based commit categorization settings.
    pub ml_categorization: Option<MlCategorizationConfig>,
}

/// ML categorization toggle and model selection.
#[derive(Clone, Debug, Default)]
pub struct MlCategorizationConfig {
    /// Whether ML categorization is enabled.
    pub enabled: bool,
    /// Optional model identifier.
    pub model: Option<String>,
}

/// Cache layer configuration.
#[derive(Debug, Default)]
pub struct CacheConfig {
    /// Filesystem directory used for cached artifacts.
    pub directory: Option<PathBuf>,
}

/// A single repository to collect commits from.
#[derive(Debug)]
pub struct RepositoryConfig {
    /// Local filesystem path to the repository.
    pub path: PathBuf,
    /// Display name used in reports.
    pub name: Option<String>,
    /// Branch override; the default branch when absent.
    pub branch: Option<String>,
    /// Inclusive start date for commit collection (ISO 8601).
    pub since_date: Option<String>,
    /// Inclusive end date for commit collection (ISO 8601).
    pub until_date: Option<String>,
}

/// Team roster and identity aliases.
#[derive(Debug, Default)]
pub struct TeamConfig {
    /// Canonical team members.
    pub members: Vec<TeamMember>,
    /// Free-form aliases, each alias with its canonical name, in the order
    /// the configuration lists them; a later entry for the same alias wins.
    pub aliases: Vec<(String, String)>,
}

/// A canonical team member with optional alias list.
#[derive(Clone, Debug, Default)]
pub struct TeamMember {
    /// Canonical display name.
    pub name: String,
    /// Primary email address (canonical).
    pub email: String,
    /// Alternative names and emails that map to this member.
    pub aliases: Vec<String>,
}

/// Output and reporting configuration.
#[derive(Debug, Default)]
pub struct OutputConfig {
    /// Single output format identifier (`csv`, `json`, `markdown`).
    pub format: Option<String>,
    /// Destination directory for reports.
    pub directory: Option<PathBuf>,
    /// Output format list.
    pub formats: Vec<String>,
    /// Include unclassified commits in output.
    pub include_unclassified: bool,
    /// Include merge commits in output.
    pub include_merges: bool,
    /// Include file-level details in output.
    pub include_files: bool,
}

/// GitHub API integration settings.
#[derive(Clone, Debug, Default)]
pub struct GithubConfig {
    /// Personal access token.
    pub token: Option<String>,
    /// Organization slug for org-wide queries.
    pub org: Option<String>,
    /// Single-repository slug (`owner/name`).
    pub repo: Option<String>,
    /// Whether to fetch pull request metadata.
    pub fetch_prs: bool,
}

/// JIRA integration settings.
#[derive(Clone, Debug, Default)]
pub struct JiraConfig {
    /// Base URL of the JIRA instance.
    pub url: Option<String>,
    /// API username.
    pub username: Option<String>,
    /// API token.
    pub token: Option<String>,
    /// Project key for filtering issues.
    pub project_key: Option<String>,
}

} // verus!
