//! Classifier precision harness: stratification, seeded capped sampling,
//! proportional subsets and rater-sheet redaction.

pub mod water;
pub mod draw;
pub mod order;
pub mod hamilton;
pub mod subsample;
pub mod rng;
pub mod records;
pub mod redact;
pub mod verdict;
pub mod sample;
pub mod score;
pub mod repredict;
pub mod merges;
pub mod reorder;
pub mod trailers;
pub mod tallies;
pub mod plan;

use vstd::prelude::*;
use crate::classify::pipeline::{configured_categories, rule_category_defs};
use crate::classify::rules::{defs_view, upsert_all, CategoryDef};

verus! {

/// Category names a rule set configures, in order: the valid-label
/// vocabulary of scoring. The rule categories come first, each once, then
/// the rules file's definitions merged in by name.
pub fn config_categories(rule_categories: &[String], categories: Vec<CategoryDef>) -> (names: Vec<String>)
    ensures
        names@.len() == upsert_all(rule_category_defs(rule_categories@), defs_view(categories@)).len(),
        forall|i: int|
            0 <= i < names@.len() ==> #[trigger] names@[i]@ == upsert_all(
                rule_category_defs(rule_categories@),
                defs_view(categories@),
            )[i].0,
{
    let defs = configured_categories(rule_categories, categories);
    let mut names: Vec<String> = Vec::new();
    let mut i: usize = 0;
    while i < defs.len()
        invariant
            i <= defs.len(),
            names@.len() == i,
            forall|k: int| 0 <= k < i ==> #[trigger] names@[k]@ == defs_view(defs@)[k].0,
        decreases defs.len() - i,
    {
        names.push(String::from_str(defs[i].name.as_str()));
        i = i + 1;
    }
    names
}

} // verus!
