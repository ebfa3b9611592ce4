//! Classification-side logic: rule tracing labels, the LLM tier's prompt
//! and token accounting, and the configured category set.

pub mod llm_prompt;
pub mod pipeline;
pub mod defaults;
pub mod pipeline_llm;
pub mod run;
pub mod rules;
pub mod trace;
