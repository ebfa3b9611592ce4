//! Classifier-precision tooling for git analytics: stratified, seeded
//! sampling of commit verdicts, proportional subsets, identity redaction of
//! rater sheets, rule tracing labels, LLM prompt construction, and the Azure
//! DevOps configuration and pull-request reference parsing that feed them.

pub mod digest;
pub mod classify;
pub mod cli;
pub mod collect;
pub mod config;
pub mod storage;
pub mod error;
pub mod eval;
pub mod paths;
pub mod text;
