//! The LLM section of the configuration and the LLM-tier routing knobs.

use vstd::prelude::*;

verus! {

/// LLM provider selection for the classification LLM tier.
#[derive(Clone, Copy, Debug, PartialEq, Eq, Structural)]
pub enum LlmSource {
    /// Route through the OpenRouter API (OpenAI-compatible schema).
    Openrouter,
    /// Route through AWS Bedrock (IAM credential-chain auth, no API key).
    Bedrock,
    /// Route through the Anthropic Messages API directly.
    AnthropicApi,
}

impl Default for LlmSource {
    fn default() -> (s: Self)
        ensures
            s == LlmSource::Openrouter,
    {
        LlmSource::Openrouter
    }
}

/// Anthropic `output_config.effort` level for the LLM tier.
#[derive(Clone, Copy, Debug, PartialEq, Eq, Structural)]
pub enum LlmEffort {
    /// Least thinking; cheapest.
    Low,
    /// Between `low` and `high`.
    Medium,
    /// The API default.
    High,
    /// Between `high` and `max`.
    Xhigh,
    /// Most thinking; most expensive.
    Max,
}

/// Wire value of an effort level.
pub open spec fn effort_label(e: LlmEffort) -> Seq<char> {
    match e {
        LlmEffort::Low => "low"@,
        LlmEffort::Medium => "medium"@,
        LlmEffort::High => "high"@,
        LlmEffort::Xhigh => "xhigh"@,
        LlmEffort::Max => "max"@,
    }
}

impl LlmEffort {
    /// The wire value sent in `output_config.effort`.
    pub fn as_str(self) -> (s: &'static str)
        ensures
            s@ == effort_label(self),
    {
        match self {
            LlmEffort::Low => "low",
            LlmEffort::Medium => "medium",
            LlmEffort::High => "high",
            LlmEffort::Xhigh => "xhigh",
            LlmEffort::Max => "max",
        }
    }
}

/// Which rule verdicts the LLM fallback tier may revisit.
#[derive(Clone, Copy, Debug, PartialEq, Eq, Structural)]
pub enum LlmFallbackScope {
    /// Every verdict at or below the fallback confidence threshold.
    LowConfidence,
    /// Only verdicts where the rules gave no category.
    Unanswered,
}

impl Default for LlmFallbackScope {
    fn default() -> (s: Self)
        ensures
            s == LlmFallbackScope::LowConfidence,
    {
        LlmFallbackScope::LowConfidence
    }
}

/// Top-level LLM configuration section.
#[derive(Clone, Debug)]
pub struct LlmConfig {
    /// LLM provider to use.
    pub source: LlmSource,
    /// Name of the environment variable holding the API key (never the key).
    pub api_key_env: String,
    /// AWS region for Bedrock invocations (Bedrock only).
    pub region: Option<String>,
    /// Model identifier (provider-specific), passed through unchanged.
    pub model: Option<String>,
    /// Anthropic effort level; `anthropic-api` only.
    pub effort: Option<LlmEffort>,
}

/// Default name of the API-key environment variable.
pub open spec fn default_api_key_env_name() -> Seq<char> {
    "OPENROUTER_API_KEY"@
}

/// The default API-key environment variable name.
pub fn default_api_key_env() -> (s: String)
    ensures
        s@ == default_api_key_env_name(),
{
    String::from_str("OPENROUTER_API_KEY")
}

impl Default for LlmConfig {
    fn default() -> (c: Self)
        ensures
            c.source == LlmSource::Openrouter,
            c.api_key_env@ == default_api_key_env_name(),
            c.region is None,
            c.model is None,
            c.effort is None,
    {
        LlmConfig {
            source: LlmSource::default(),
            api_key_env: default_api_key_env(),
            region: None,
            model: None,
            effort: None,
        }
    }
}

} // verus!
