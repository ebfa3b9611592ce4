//! Command-line argument records of the `tga` subcommands.

use vstd::prelude::*;

verus! {

/// Arguments for `tga analyze`.
#[derive(Debug)]
pub struct AnalyzeArgs {
    /// Skip collection (use existing database rows).
    pub skip_collect: bool,
    /// Skip classification.
    pub skip_classify: bool,
    /// Output directory override.
    pub output: Option<std::path::PathBuf>,
    /// Re-collect all weeks even if already present in the database.
    pub force: bool,
    /// Limit collection to the last N weeks.
    pub weeks: Option<u32>,
    /// Start date for collection (YYYY-MM-DD).
    pub from: Option<String>,
    /// End date for collection (YYYY-MM-DD).
    pub to: Option<String>,
    /// Skip the pre-walk `git fetch` step.
    pub no_fetch: bool,
    /// Perform every step except writing to the database.
    pub dry_run: bool,
}

/// Arguments for `tga collect`.
#[derive(Debug)]
pub struct CollectArgs {
    /// Only collect from these repository names.
    pub repos: Vec<String>,
    /// Collect since date (legacy alias for `from`).
    pub since: Option<String>,
    /// Collect until date (legacy alias for `to`).
    pub until: Option<String>,
    /// Start date for collection (YYYY-MM-DD).
    pub from: Option<String>,
    /// End date for collection (YYYY-MM-DD).
    pub to: Option<String>,
    /// Re-collect all weeks even if already present in the database.
    pub force: bool,
    /// Limit collection to the last N weeks.
    pub weeks: Option<u32>,
    /// Skip the pre-walk `git fetch` step.
    pub no_fetch: bool,
    /// Perform every step except writing to the database.
    pub dry_run: bool,
}

/// Arguments for `tga classify`.
#[derive(Debug)]
pub struct ClassifyArgs {
    /// Rules file override.
    pub rules: Option<std::path::PathBuf>,
    /// Enable the LLM fallback (overrides the config).
    pub use_llm: bool,
}

/// Arguments for `tga report`.
#[derive(Debug)]
pub struct ReportArgs {
    /// Output directory override.
    pub output: Option<std::path::PathBuf>,
    /// Output formats (csv, json, markdown).
    pub formats: Vec<String>,
}

/// Arguments for `tga eval`.
#[derive(Debug)]
pub struct EvalArgs {
    /// Harness step.
    pub step: EvalSubcommand,
}

/// The two harness steps.
#[derive(Debug)]
pub enum EvalSubcommand {
    /// Draw a stratified, capped, seeded sample of classified commits.
    Sample(SampleArgs),
    /// Score rater labels against a sample.
    Score(ScoreArgs),
}

/// Flags for `tga eval sample`.
#[derive(Debug)]
pub struct SampleArgs {
    /// A copy of the tga database; opened read-only.
    pub db: std::path::PathBuf,
    /// Window length in weeks, ending at the newest commit.
    pub weeks: u32,
    /// Total sample size.
    pub size: usize,
    /// RNG seed.
    pub seed: u64,
    /// Maximum commits per repository and per author within a stratum.
    pub cap: usize,
    /// Salt for author hashes; generated when omitted.
    pub salt: Option<String>,
    /// Output directory.
    pub out: std::path::PathBuf,
}

/// Flags for `tga eval score`.
#[derive(Debug)]
pub struct ScoreArgs {
    /// `sample.jsonl` written by the sampling step.
    pub sample: std::path::PathBuf,
    /// Rater label files (one or two).
    pub labels: Vec<std::path::PathBuf>,
    /// Adjudicated labels.
    pub adjudicated: Option<std::path::PathBuf>,
    /// `strata.json`; defaults to the one next to the sample.
    pub strata: Option<std::path::PathBuf>,
    /// Output directory for the reports.
    pub out: std::path::PathBuf,
}

} // verus!
