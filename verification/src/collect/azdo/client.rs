//! Azure DevOps client: the parts that need no network — credential format
//! checks, the offline connection stub, and URL normalisation.

use vstd::prelude::*;
use crate::config::azdo::AzureDevOpsConfig;
use crate::text::{blank, is_blank, strip_trailing_slashes, trailing_slashes};

verus! {

/// `reqwest::Error`, carried opaque.
#[verifier::external_type_specification]
#[verifier::external_body]
pub struct ExReqwestError(reqwest::Error);

/// Errors returned by the Azure DevOps client.
#[derive(Debug)]
pub enum AzdoError {
    /// The method is not implemented yet; `phase` is the planned phase.
    NotImplemented {
        /// Name of the method that would have performed work.
        method: String,
        /// Phase number in which this method will be implemented.
        phase: u32,
    },
    /// Credentials were rejected at the format-validation stage.
    InvalidCredentials(String),
    /// The configured URL is malformed or not an Azure DevOps URL.
    InvalidUrl(String),
    /// HTTP request returned an unhandled status code.
    Http {
        /// HTTP status code.
        status: u16,
        /// Response body or reason phrase.
        message: String,
    },
    /// HTTP 401: the PAT is missing, malformed, or rejected.
    Unauthorized,
    /// HTTP 403: the PAT lacks scope for the requested resource.
    Forbidden,
    /// HTTP 404: the organisation URL is wrong or the resource is missing.
    NotFound,
    /// Transport-level failure (DNS, TLS, timeout, connection reset).
    Request(reqwest::Error),
    /// The response body did not have the expected JSON shape.
    Parse(String),
}

/// Result of an Azure DevOps connection probe.
#[derive(Clone, Debug)]
pub struct AzdoConnectionInfo {
    /// Probe status: `connected`, `failed`, or `stub`.
    pub status: String,
    /// Phase that produced this result.
    pub phase: u32,
    /// Organisation URL echoed back from the configuration.
    pub organization_url: String,
    /// Human-readable note about the probe outcome.
    pub message: String,
    /// Authenticated user GUID (present on success).
    pub user_id: Option<String>,
    /// Authenticated user display name (present on success).
    pub user_name: Option<String>,
    /// Azure DevOps instance GUID (present on success).
    pub instance_id: Option<String>,
}

/// Work-item placeholder.
#[derive(Clone, Debug)]
pub struct WorkItem {
    /// Work-item id (the `N` in `AB#N`).
    pub id: u32,
    /// Title of the work item.
    pub title: String,
}

/// Azure DevOps project descriptor.
#[derive(Clone, Debug)]
pub struct AzdoProject {
    /// Project GUID.
    pub id: String,
    /// Project display name.
    pub name: String,
    /// Lifecycle state (`wellFormed`, `createPending`, `deleting`, ...).
    pub state: String,
    /// Visibility (`private` or `public`).
    pub visibility: String,
}

/// Azure DevOps client; holds its configuration.
pub struct AzureDevOpsClient {
    config: AzureDevOpsConfig,
}

/// Message of the stub probe.
pub open spec fn stub_message() -> Seq<char> {
    "stub probe — call test_connection() for a real check"@
}

/// Message for an empty or whitespace-only PAT.
pub open spec fn empty_pat_credentials() -> Seq<char> {
    "PAT is empty (a non-empty PAT is required)"@
}

impl AzureDevOpsClient {
    /// The configuration this client was built with.
    pub closed spec fn spec_config(&self) -> AzureDevOpsConfig {
        self.config
    }

    /// Construct a new client. Does not validate or contact Azure DevOps.
    pub fn new(config: AzureDevOpsConfig) -> (c: Self)
        ensures
            c.spec_config() == config,
    {
        AzureDevOpsClient { config }
    }

    /// Borrow the underlying configuration.
    pub fn config(&self) -> (c: &AzureDevOpsConfig)
        ensures
            *c == self.spec_config(),
    {
        &self.config
    }

    /// Validate the credentials' format only: the PAT must not be empty or
    /// whitespace-only. No HTTP probe.
    pub fn validate_credentials(&self) -> (r: Result<(), AzdoError>)
        ensures
            r is Ok <==> !blank(self.spec_config().pat@),
            r matches Err(e) ==> (e matches AzdoError::InvalidCredentials(m) && m@ == empty_pat_credentials()),
    {
        if is_blank(self.config.pat.as_str()) {
            return Err(AzdoError::InvalidCredentials(String::from_str("PAT is empty (a non-empty PAT is required)")));
        }
        Ok(())
    }

    /// The offline connection probe: status `stub`, phase 1, the configured
    /// organisation URL, and no identity.
    pub fn test_connection_stub(&self) -> (info: AzdoConnectionInfo)
        ensures
            info.status@ == "stub"@,
            info.phase == 1,
            info.organization_url@ == self.spec_config().organization_url@,
            info.message@ == stub_message(),
            info.user_id is None,
            info.user_name is None,
            info.instance_id is None,
    {
        AzdoConnectionInfo {
            status: String::from_str("stub"),
            phase: 1,
            organization_url: self.config.organization_url.clone(),
            message: String::from_str("stub probe — call test_connection() for a real check"),
            user_id: None,
            user_name: None,
            instance_id: None,
        }
    }

    /// The organisation URL without trailing slashes.
    pub fn org_url(&self) -> (u: &str)
        ensures
            u@ == self.spec_config().organization_url@.take(
                self.spec_config().organization_url@.len() - trailing_slashes(self.spec_config().organization_url@),
            ),
    {
        strip_trailing_slashes(self.config.organization_url.as_str())
    }
}

} // verus!
