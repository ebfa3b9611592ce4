//! The category set a rules file configures, as offered to the LLM tier.

use vstd::prelude::*;
use crate::classify::rules::{def_view, defs_view, merge_category_defs, position_of, upsert_all, CategoryDef};

verus! {

/// The rule categories as undescribed definitions, each name once, in
/// first-occurrence order.
pub open spec fn rule_category_defs(cats: Seq<String>) -> Seq<(Seq<char>, Option<Seq<char>>)>
    decreases cats.len(),
{
    if cats.len() == 0 {
        Seq::empty()
    } else {
        let prev = rule_category_defs(cats.drop_last());
        if position_of(prev, cats.last()@) is Some {
            prev
        } else {
            prev.push((cats.last()@, None))
        }
    }
}

/// The categories a rule set configures: every rule category once, in
/// first-occurrence order and without description, then the rules file's
/// category definitions merged in by name (a definition's description
/// replaces the entry of the same name; a new name is appended).
pub fn configured_categories(rule_categories: &[String], categories: Vec<CategoryDef>) -> (out: Vec<CategoryDef>)
    ensures
        defs_view(out@) == upsert_all(rule_category_defs(rule_categories@), defs_view(categories@)),
{
    let mut out: Vec<CategoryDef> = Vec::new();
    let mut k: usize = 0;
    while k < rule_categories.len()
        invariant
            k <= rule_categories.len(),
            defs_view(out@) == rule_category_defs(rule_categories@.take(k as int)),
        decreases rule_categories.len() - k,
    {
        proof {
            assert(rule_categories@.take(k as int + 1).drop_last() == rule_categories@.take(k as int));
        }
        let ghost before = defs_view(out@);
        if find_named(&out, rule_categories[k].as_str()).is_none() {
            out.push(CategoryDef::new(rule_categories[k].as_str()));
            proof {
                assert(defs_view(out@) =~= before.push((rule_categories@[k as int]@, None)));
            }
        }
        k = k + 1;
    }
    assert(rule_categories@.take(rule_categories.len() as int) == rule_categories@);
    merge_category_defs(out, categories)
}

/// The category set the LLM tier may answer with, or `None` for the
/// built-in list: only when rules files are configured and the last one
/// sets `extend_defaults: false` do the rules files define the whole set,
/// and then it is every configured category.
pub fn llm_categories(
    extend_defaults: bool,
    has_rules_files: bool,
    rule_categories: &[String],
    categories: Vec<CategoryDef>,
) -> (r: Option<Vec<CategoryDef>>)
    ensures
        r is Some <==> (!extend_defaults && has_rules_files),
        r matches Some(defs) ==> defs_view(defs@) == upsert_all(
            rule_category_defs(rule_categories@),
            defs_view(categories@),
        ),
{
    if !extend_defaults && has_rules_files {
        Some(configured_categories(rule_categories, categories))
    } else {
        None
    }
}

/// Position of the first definition named `name`.
fn find_named(defs: &Vec<CategoryDef>, name: &str) -> (r: Option<usize>)
    ensures
        r is None <==> position_of(defs_view(defs@), name@) is None,
{
    let mut i: usize = 0;
    let ghost v = defs_view(defs@);
    assert(v.skip(0) =~= v);
    while i < defs.len()
        invariant
            v == defs_view(defs@),
            i <= defs.len(),
            (position_of(v, name@) is None) == (position_of(v.skip(i as int), name@) is None),
        decreases defs.len() - i,
    {
        proof {
            assert(v.skip(i as int).drop_first() == v.skip(i as int + 1));
            assert(v.skip(i as int)[0] == v[i as int]);
        }
        if crate::text::str_eq(defs[i].name.as_str(), name) {
            return Some(i);
        }
        i = i + 1;
    }
    assert(v.skip(i as int) =~= Seq::<(Seq<char>, Option<Seq<char>>)>::empty());
    None
}

} // verus!
