//! Azure DevOps integration.

pub mod client;
pub mod pr_fetcher;
