//! Azure DevOps integration configuration.
//!
//! PAT authentication only, cloud only: on-premises Azure DevOps Server
//! (TFS) URLs are refused at load time; only `dev.azure.com` and
//! `*.visualstudio.com` are accepted. The work-item reference pattern is
//! configurable, must compile, and must expose capture group 1 (the numeric
//! work-item id).

use vstd::prelude::*;
use crate::error::TgaError;
use crate::config::host::{azure_cloud_host, host_of, is_azure_cloud_host, url_host};
use crate::text::{blank, debug_quote, debug_quoted, is_blank};

verus! {

/// `regex::Regex`, carried opaque.
#[verifier::external_type_specification]
#[verifier::external_body]
pub struct ExRegex(regex::Regex);

/// `regex::Error`, carried opaque.
#[verifier::external_type_specification]
#[verifier::external_body]
pub struct ExRegexError(regex::Error);

/// Whether `regex::Regex::new` accepts `pattern` (it compiles within the
/// default size limit).
pub uninterp spec fn regex_accepts(pattern: Seq<char>) -> bool;

/// The number of capture groups of the compiled `pattern`
/// (`Regex::captures_len`), the implicit group of the whole match included.
pub uninterp spec fn regex_group_count(pattern: Seq<char>) -> nat;

/// Calls `regex::Regex::new`, then `captures_len` on the compiled pattern.
/// Claimed: compiling succeeds exactly when [`regex_accepts`] holds of the
/// pattern, and the count is [`regex_group_count`] of the pattern, at
/// least 1 as the documentation states (it counts the whole match). Which
/// patterns compile, and with how many groups, is not claimed.
#[verifier::external_body]
fn regex_compile_counting(pattern: &str) -> (r: Result<(regex::Regex, usize), regex::Error>)
    ensures
        r is Ok <==> regex_accepts(pattern@),
        r matches Ok((_, n)) ==> n == regex_group_count(pattern@) && n >= 1,
{
    match regex::Regex::new(pattern) {
        Ok(re) => {
            let n = re.captures_len();
            Ok((re, n))
        },
        Err(e) => Err(e),
    }
}

/// Renders a `regex::Error` with its `Display` impl; nothing is claimed of
/// the text.
#[verifier::external_body]
fn regex_error_text(e: &regex::Error) -> String {
    e.to_string()
}

/// Configuration for Azure DevOps integration (PAT auth, cloud only).
#[derive(Clone, Debug)]
pub struct AzureDevOpsConfig {
    /// Organisation URL: `https://dev.azure.com/{org}` or
    /// `https://{org}.visualstudio.com`.
    pub organization_url: String,
    /// Personal Access Token; empty or whitespace-only values are refused.
    pub pat: String,
    /// Azure DevOps project name.
    pub project: String,
    /// Pattern detecting work-item references; group 1 captures the id.
    pub ticket_regex: String,
    /// Team keys to filter; empty means all teams.
    pub team_keys: Vec<String>,
    /// Whether to fetch work items on commit reference.
    pub fetch_on_reference: bool,
}

/// The default work-item reference pattern: case-insensitive `AB#<digits>`.
pub open spec fn default_ticket_pattern() -> Seq<char> {
    "(?i)AB#(\\d+)"@
}

/// The default work-item reference pattern.
pub fn default_ticket_regex() -> (s: String)
    ensures
        s@ == default_ticket_pattern(),
{
    String::from_str("(?i)AB#(\\d+)")
}

/// Default of `fetch_on_reference`.
pub fn default_true() -> (b: bool)
    ensures
        b,
{
    true
}

/// The URL names an Azure DevOps cloud host: its host is `dev.azure.com`
/// or a name under `.visualstudio.com`, ASCII case ignored.
pub open spec fn cloud_url(url: Seq<char>) -> bool {
    azure_cloud_host(url_host(url))
}

/// Whether the URL is an Azure DevOps cloud URL.
pub fn is_cloud_url(url: &str) -> (r: bool)
    ensures
        r == cloud_url(url@),
{
    let h = host_of(url);
    is_azure_cloud_host(h.as_slice())
}

/// Message for an empty organisation URL.
pub open spec fn empty_url_message() -> Seq<char> {
    "pm.azure_devops.organization_url must not be empty"@
}

/// Message for a URL that is not an Azure DevOps cloud URL.
pub open spec fn not_cloud_message(url: Seq<char>) -> Seq<char> {
    "pm.azure_devops.organization_url "@ + debug_quoted(url)
        + " is not an Azure DevOps cloud URL — on-premises ADO Server / TFS is not supported in Phase 1 (only dev.azure.com and *.visualstudio.com are accepted)"@
}

/// Message for an empty PAT.
pub open spec fn empty_pat_message() -> Seq<char> {
    "pm.azure_devops.pat must not be empty (Phase 1 uses PAT authentication)"@
}

/// Message for an empty project.
pub open spec fn empty_project_message() -> Seq<char> {
    "pm.azure_devops.project must not be empty"@
}

/// Opening of the message for a pattern that does not compile.
pub open spec fn regex_failed_prefix(pattern: Seq<char>) -> Seq<char> {
    "pm.azure_devops.ticket_regex "@ + debug_quoted(pattern) + " failed to compile: "@
}

/// Message for a pattern without a capture group.
pub open spec fn no_group_message(pattern: Seq<char>) -> Seq<char> {
    "pm.azure_devops.ticket_regex "@ + debug_quoted(pattern)
        + " has no capture group — group 1 must capture the numeric work-item ID (e.g. "@ + debug_quoted(
        default_ticket_pattern(),
    ) + ")"@
}

/// The ticket pattern compiles and has a capture group 1.
pub open spec fn ticket_pattern_ok(pattern: Seq<char>) -> bool {
    regex_accepts(pattern) && regex_group_count(pattern) >= 2
}

/// `msg` refuses the ticket pattern: it does not compile, or it compiles
/// without a capture group.
pub open spec fn refuses_pattern(pattern: Seq<char>, msg: Seq<char>) -> bool {
    (!regex_accepts(pattern) && msg.len() >= regex_failed_prefix(pattern).len() && msg.subrange(
        0,
        regex_failed_prefix(pattern).len() as int,
    ) == regex_failed_prefix(pattern)) || (regex_accepts(pattern) && regex_group_count(pattern) < 2
        && msg == no_group_message(pattern))
}

impl AzureDevOpsConfig {
    /// Validate the configuration: the organisation URL must be non-blank
    /// and a cloud URL, the PAT and project non-blank, and the ticket
    /// pattern must compile with a capture group 1. The first failing check
    /// gives the error.
    pub fn validate(&self) -> (r: Result<(), TgaError>)
        ensures
            blank(self.organization_url@) ==> (r matches Err(TgaError::ConfigError(m)) && m@
                == empty_url_message()),
            !blank(self.organization_url@) && !cloud_url(self.organization_url@) ==> (r matches Err(
                TgaError::ConfigError(m),
            ) && m@ == not_cloud_message(self.organization_url@)),
            !blank(self.organization_url@) && cloud_url(self.organization_url@) && blank(self.pat@)
                ==> (r matches Err(TgaError::ConfigError(m)) && m@ == empty_pat_message()),
            !blank(self.organization_url@) && cloud_url(self.organization_url@) && !blank(self.pat@)
                && blank(self.project@) ==> (r matches Err(TgaError::ConfigError(m)) && m@
                == empty_project_message()),
            !blank(self.organization_url@) && cloud_url(self.organization_url@) && !blank(self.pat@)
                && !blank(self.project@) ==> match r {
                Ok(()) => ticket_pattern_ok(self.ticket_regex@),
                Err(TgaError::ConfigError(m)) => refuses_pattern(self.ticket_regex@, m@),
                Err(TgaError::ValidationError(_)) => false,
            },
            r is Ok <==> !blank(self.organization_url@) && cloud_url(self.organization_url@) && !blank(
                self.pat@,
            ) && !blank(self.project@) && ticket_pattern_ok(self.ticket_regex@),
    {
        if is_blank(self.organization_url.as_str()) {
            return Err(TgaError::ConfigError(String::from_str("pm.azure_devops.organization_url must not be empty")));
        }
        if !is_cloud_url(self.organization_url.as_str()) {
            let mut m = String::from_str("pm.azure_devops.organization_url ");
            let q = debug_quote(self.organization_url.as_str());
            m.append(q.as_str());
            m.append(
                " is not an Azure DevOps cloud URL — on-premises ADO Server / TFS is not supported in Phase 1 (only dev.azure.com and *.visualstudio.com are accepted)",
            );
            return Err(TgaError::ConfigError(m));
        }
        if is_blank(self.pat.as_str()) {
            return Err(TgaError::ConfigError(String::from_str("pm.azure_devops.pat must not be empty (Phase 1 uses PAT authentication)")));
        }
        if is_blank(self.project.as_str()) {
            return Err(TgaError::ConfigError(String::from_str("pm.azure_devops.project must not be empty")));
        }
        match self.compile_ticket_regex() {
            Ok(_) => Ok(()),
            Err(e) => Err(e),
        }
    }

    /// Compile `ticket_regex` and check that it has a capture group 1,
    /// which is parsed as the numeric work-item id.
    pub fn compile_ticket_regex(&self) -> (r: Result<regex::Regex, TgaError>)
        ensures
            r is Ok <==> ticket_pattern_ok(self.ticket_regex@),
            r matches Err(e) ==> (e matches TgaError::ConfigError(m) && refuses_pattern(self.ticket_regex@, m@)),
    {
        match regex_compile_counting(self.ticket_regex.as_str()) {
            Err(e) => {
                let mut m = String::from_str("pm.azure_devops.ticket_regex ");
                let q = debug_quote(self.ticket_regex.as_str());
                m.append(q.as_str());
                m.append(" failed to compile: ");
                let ghost prefix = m@;
                let text = regex_error_text(&e);
                m.append(text.as_str());
                assert(m@.subrange(0, prefix.len() as int) =~= prefix);
                Err(TgaError::ConfigError(m))
            },
            Ok((re, groups)) => {
                if groups < 2 {
                    let mut m = String::from_str("pm.azure_devops.ticket_regex ");
                    let q = debug_quote(self.ticket_regex.as_str());
                    m.append(q.as_str());
                    m.append(" has no capture group — group 1 must capture the numeric work-item ID (e.g. ");
                    let d = default_ticket_regex();
                    let dq = debug_quote(d.as_str());
                    m.append(dq.as_str());
                    m.append(")");
                    return Err(TgaError::ConfigError(m));
                }
                Ok(re)
            },
        }
    }
}

} // verus!
