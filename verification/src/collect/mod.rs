//! Collection-side logic: Azure DevOps configuration checks, the client's
//! offline operations, and pull-request references in commit messages.

pub mod azdo;
pub mod github;
pub mod jira;
pub mod diff;
pub mod collector;
pub mod identity;
pub mod window;
