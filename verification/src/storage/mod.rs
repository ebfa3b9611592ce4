//! Storage-side records shared by the pipeline stages.

pub mod migrations;
