//! Category definitions of a rule set, and rule defaults.

use vstd::prelude::*;
use crate::text::str_eq;

verus! {

/// Default priority of a user-supplied rule: one step above the built-in
/// conventional-commit rules, so custom rules win without an explicit value.
pub fn default_rule_priority() -> (p: i32)
    ensures
        p == 110,
{
    110
}

/// One entry of a rules file's category list: a name plus an optional
/// free-text description shown to the LLM tier.
#[derive(Clone, Debug, PartialEq, Eq)]
pub struct CategoryDef {
    /// Category name, as a rule's `category` would spell it.
    pub name: String,
    /// What the category means; shown to the LLM when present.
    pub description: Option<String>,
}

/// A category definition as plain text: name and description.
pub open spec fn def_view(d: CategoryDef) -> (Seq<char>, Option<Seq<char>>) {
    (
        d.name@,
        match d.description {
            Some(s) => Some(s@),
            None => None,
        },
    )
}

/// The definitions as plain text, in order.
pub open spec fn defs_view(ds: Seq<CategoryDef>) -> Seq<(Seq<char>, Option<Seq<char>>)> {
    Seq::new(ds.len(), |i: int| def_view(ds[i]))
}

/// Position of the first definition named `name`, if any.
pub open spec fn position_of(defs: Seq<(Seq<char>, Option<Seq<char>>)>, name: Seq<char>) -> Option<int>
    decreases defs.len(),
{
    if defs.len() == 0 {
        None
    } else if defs[0].0 == name {
        Some(0)
    } else {
        match position_of(defs.drop_first(), name) {
            Some(k) => Some(k + 1),
            None => None,
        }
    }
}

/// `defs` with `d` put in place of the first definition of the same name,
/// or appended when there is none.
pub open spec fn upsert_def(defs: Seq<(Seq<char>, Option<Seq<char>>)>, d: (Seq<char>, Option<Seq<char>>)) -> Seq<
    (Seq<char>, Option<Seq<char>>),
> {
    match position_of(defs, d.0) {
        Some(i) => defs.update(i, d),
        None => defs.push(d),
    }
}

/// `defs` with each of `overlay` upserted in order: a later definition
/// wins by name.
pub open spec fn upsert_all(defs: Seq<(Seq<char>, Option<Seq<char>>)>, overlay: Seq<(Seq<char>, Option<Seq<char>>)>) -> Seq<
    (Seq<char>, Option<Seq<char>>),
>
    decreases overlay.len(),
{
    if overlay.len() == 0 {
        defs
    } else {
        upsert_all(upsert_def(defs, overlay[0]), overlay.drop_first())
    }
}

impl CategoryDef {
    /// A copy of this definition.
    pub fn duplicate(&self) -> (d: Self)
        ensures
            def_view(d) == def_view(*self),
    {
        let description = match &self.description {
            Some(s) => Some(s.clone()),
            None => None,
        };
        CategoryDef { name: self.name.clone(), description }
    }

    /// A category `name` with no description.
    pub fn new(name: &str) -> (d: Self)
        ensures
            d.name@ == name@,
            d.description is None,
    {
        CategoryDef { name: String::from_str(name), description: None }
    }
}

proof fn lemma_position_of_bounds(defs: Seq<(Seq<char>, Option<Seq<char>>)>, name: Seq<char>)
    ensures
        position_of(defs, name) matches Some(i) ==> 0 <= i < defs.len() && defs[i].0 == name,
    decreases defs.len(),
{
    if defs.len() > 0 && defs[0].0 != name {
        lemma_position_of_bounds(defs.drop_first(), name);
    }
}

/// Position of the first definition named `name` among `defs`.
fn find_def(defs: &Vec<CategoryDef>, name: &str) -> (r: Option<usize>)
    ensures
        r matches Some(i) ==> position_of(defs_view(defs@), name@) == Some(i as int),
        r is None ==> position_of(defs_view(defs@), name@) is None,
{
    let ghost v = defs_view(defs@);
    let mut i: usize = 0;
    assert(v.skip(0) =~= v);
    while i < defs.len()
        invariant
            v == defs_view(defs@),
            i <= defs.len(),
            position_of(v, name@) == match position_of(v.skip(i as int), name@) {
                Some(k) => Some(k + i),
                None => None,
            },
        decreases defs.len() - i,
    {
        proof {
            assert(v.skip(i as int).drop_first() == v.skip(i as int + 1));
            assert(v.skip(i as int)[0] == v[i as int]);
        }
        if str_eq(defs[i].name.as_str(), name) {
            return Some(i);
        }
        i = i + 1;
    }
    assert(v.skip(i as int) =~= Seq::<(Seq<char>, Option<Seq<char>>)>::empty());
    None
}

/// Merge category definitions by name: each definition of `overlay`, in
/// order, replaces the first definition of the same name, or is appended.
pub fn merge_category_defs(base: Vec<CategoryDef>, overlay: Vec<CategoryDef>) -> (merged: Vec<CategoryDef>)
    ensures
        defs_view(merged@) == upsert_all(defs_view(base@), defs_view(overlay@)),
{
    let mut defs = base;
    let mut k: usize = 0;
    let ghost ov = defs_view(overlay@);
    assert(ov.skip(0) =~= ov);
    while k < overlay.len()
        invariant
            ov == defs_view(overlay@),
            k <= overlay.len(),
            upsert_all(defs_view(base@), ov) == upsert_all(defs_view(defs@), ov.skip(k as int)),
        decreases overlay.len() - k,
    {
        let d = overlay[k].duplicate();
        let ghost before = defs_view(defs@);
        match find_def(&defs, overlay[k].name.as_str()) {
            Some(i) => {
                proof {
                    lemma_position_of_bounds(before, ov[k as int].0);
                }
                defs.set(i, d);
                proof {
                    assert(defs_view(defs@) =~= before.update(i as int, ov[k as int]));
                }
            },
            None => {
                defs.push(d);
                proof {
                    assert(defs_view(defs@) =~= before.push(ov[k as int]));
                }
            },
        }
        proof {
            assert(ov.skip(k as int)[0] == ov[k as int]);
            assert(ov.skip(k as int).drop_first() == ov.skip(k as int + 1));
        }
        k = k + 1;
    }
    assert(ov.skip(k as int) =~= Seq::<(Seq<char>, Option<Seq<char>>)>::empty());
    defs
}


/// Position of the first of `names` equal to `name`.
pub open spec fn first_pos(names: Seq<Seq<char>>, name: Seq<char>) -> Option<int>
    decreases names.len(),
{
    if names.len() == 0 {
        None
    } else {
        match first_pos(names.drop_last(), name) {
            Some(k) => Some(k),
            None => if names.last() == name {
                Some(names.len() - 1)
            } else {
                None
            },
        }
    }
}

proof fn lemma_first_pos_prefix(names: Seq<Seq<char>>, name: Seq<char>, n: int)
    requires
        0 <= n <= names.len(),
        first_pos(names.take(n), name) is Some,
    ensures
        first_pos(names, name) == first_pos(names.take(n), name),
    decreases names.len() - n,
{
    if n < names.len() {
        assert(names.take(n + 1).drop_last() =~= names.take(n));
        lemma_first_pos_prefix(names, name, n + 1);
    } else {
        assert(names.take(n) =~= names);
    }
}

proof fn lemma_first_pos_bounds(names: Seq<Seq<char>>, name: Seq<char>)
    ensures
        first_pos(names, name) matches Some(k) ==> 0 <= k < names.len() && names[k] == name,
        first_pos(names, name) is None ==> forall|k: int| 0 <= k < names.len() ==> names[k] != name,
    decreases names.len(),
{
    if names.len() > 0 {
        lemma_first_pos_bounds(names.drop_last(), name);
        if first_pos(names.drop_last(), name) is None {
            assert forall|k: int| 0 <= k < names.len() - 1 implies names[k] != name by {
                assert(names[k] == names.drop_last()[k]);
            }
        }
    }
}

/// The keys of the entries a plan picks.
pub open spec fn plan_keys(keys: Seq<Seq<char>>, plan: Seq<usize>) -> Seq<Seq<char>> {
    Seq::new(plan.len(), |k: int| keys[plan[k] as int])
}

/// Which entries of a keyed list survive a merge by key: entries are
/// taken in order; one whose key is new is appended, one whose key was
/// seen takes the place of the earlier entry. The result lists entry
/// positions, one per distinct key, in first-occurrence order of the
/// keys, each the last entry with its key.
pub open spec fn merge_plan(keys: Seq<Seq<char>>) -> Seq<usize>
    decreases keys.len(),
{
    if keys.len() == 0 {
        Seq::empty()
    } else {
        let prev = merge_plan(keys.drop_last());
        let i = (keys.len() - 1) as usize;
        match first_pos(plan_keys(keys.drop_last(), prev), keys.last()) {
            Some(k) => prev.update(k, i),
            None => prev.push(i),
        }
    }
}

proof fn lemma_merge_plan_bounds(keys: Seq<Seq<char>>)
    ensures
        forall|k: int| 0 <= k < merge_plan(keys).len() ==> #[trigger] merge_plan(keys)[k] < keys.len(),
        keys.len() <= usize::MAX + 1 ==> merge_plan(keys).len() <= keys.len(),
    decreases keys.len(),
{
    if keys.len() > 0 {
        lemma_merge_plan_bounds(keys.drop_last());
        let prev = merge_plan(keys.drop_last());
        lemma_first_pos_bounds(plan_keys(keys.drop_last(), prev), keys.last());
    }
}

/// The order in which merging a keyed list keeps its entries (see
/// [`merge_plan`]); `ids` are the entries' keys, and the result lists
/// positions into `ids`.
pub fn merge_order(ids: &[String]) -> (plan: Vec<usize>)
    ensures
        plan@ == merge_plan(Seq::new(ids@.len(), |j: int| ids@[j]@)),
{
    let ghost keys = Seq::new(ids@.len(), |j: int| ids@[j]@);
    let mut plan: Vec<usize> = Vec::new();
    let mut i: usize = 0;
    while i < ids.len()
        invariant
            i <= ids.len(),
            keys == Seq::new(ids@.len(), |j: int| ids@[j]@),
            plan@ == merge_plan(keys.take(i as int)),
        decreases ids.len() - i,
    {
        let ghost prefix = keys.take(i as int);
        proof {
            assert(keys.take(i as int + 1).drop_last() =~= prefix);
            lemma_merge_plan_bounds(prefix);
        }
        let ghost pk = plan_keys(prefix, plan@);
        let mut k: usize = 0;
        let mut found: Option<usize> = None;
        while k < plan.len() && found.is_none()
            invariant
                k <= plan.len(),
                i < ids.len(),
                keys == Seq::new(ids@.len(), |j: int| ids@[j]@),
                prefix == keys.take(i as int),
                pk == plan_keys(prefix, plan@),
                forall|q: int| 0 <= q < plan@.len() ==> #[trigger] plan@[q] < prefix.len(),
                found matches Some(f) ==> f < plan.len() && first_pos(pk, keys[i as int]) == Some(f as int),
                found is None ==> first_pos(pk.take(k as int), keys[i as int]) is None,
            decreases plan.len() - k,
        {
            proof {
                assert(pk.take(k as int + 1).drop_last() =~= pk.take(k as int));
                assert(pk[k as int] == ids@[plan@[k as int] as int]@);
            }
            if crate::text::str_eq(ids[plan[k]].as_str(), ids[i].as_str()) {
                proof {
                    lemma_first_pos_prefix(pk, keys[i as int], k as int + 1);
                }
                found = Some(k);
            }
            k = k + 1;
        }
        proof {
            if found is None {
                assert(pk.take(plan@.len() as int) =~= pk);
            }
            assert(keys.take(i as int + 1).last() == keys[i as int]);
        }
        let ghost old_plan = plan@;
        match found {
            Some(f) => {
                plan.set(f, i);
            },
            None => {
                plan.push(i);
            },
        }
        proof {
            let next = keys.take(i as int + 1);
            assert(next.drop_last() == prefix);
            assert(next.last() == keys[i as int]);
            assert(merge_plan(next) == match first_pos(plan_keys(prefix, old_plan), keys[i as int]) {
                Some(q) => old_plan.update(q, i),
                None => old_plan.push(i),
            });
            assert(pk == plan_keys(prefix, old_plan));
            match found {
                Some(f) => {
                    assert(first_pos(pk, keys[i as int]) == Some(f as int));
                    assert(plan@ == old_plan.update(f as int, i));
                },
                None => {
                    assert(first_pos(pk, keys[i as int]) is None);
                    assert(plan@ == old_plan.push(i));
                },
            }
            assert(plan@ == merge_plan(next));
        }
        i = i + 1;
    }
    assert(keys.take(ids.len() as int) =~= keys);
    plan
}

/// Whether entry `a` comes before entry `b` when ordered by descending
/// priority, ties kept in their original order.
pub open spec fn priority_before(priorities: Seq<i32>, a: usize, b: usize) -> bool {
    priorities[a as int] > priorities[b as int] || (priorities[a as int] == priorities[b as int] && a < b)
}

/// Positions of `priorities` ordered by descending priority, ties in their
/// original order (a stable sort on the reversed priority).
pub fn priority_order(priorities: &[i32]) -> (order: Vec<usize>)
    ensures
        order@.len() == priorities@.len(),
        forall|k: int| 0 <= k < order@.len() ==> #[trigger] order@[k] < priorities@.len(),
        forall|a: int, b: int|
            0 <= a < b < order@.len() ==> priority_before(priorities@, #[trigger] order@[a], #[trigger] order@[b]),
{
    let mut order: Vec<usize> = Vec::new();
    let mut i: usize = 0;
    while i < priorities.len()
        invariant
            i <= priorities.len(),
            order@.len() == i,
            forall|k: int| 0 <= k < order@.len() ==> #[trigger] order@[k] < i,
            forall|a: int, b: int|
                0 <= a < b < order@.len() ==> priority_before(priorities@, #[trigger] order@[a], #[trigger] order@[b]),
        decreases priorities.len() - i,
    {
        let mut pos: usize = 0;
        while pos < order.len() && priorities[order[pos]] >= priorities[i]
            invariant
                pos <= order@.len(),
                i < priorities.len(),
                forall|k: int| 0 <= k < order@.len() ==> #[trigger] order@[k] < i,
                forall|k: int| 0 <= k < pos ==> priorities@[#[trigger] order@[k] as int] >= priorities@[i as int],
            decreases order@.len() - pos,
        {
            pos = pos + 1;
        }
        let ghost old_order = order@;
        order.insert(pos, i);
        proof {
            assert forall|a: int, b: int| 0 <= a < b < order@.len() implies priority_before(
                priorities@,
                #[trigger] order@[a],
                #[trigger] order@[b],
            ) by {
                if b < pos {
                    assert(order@[a] == old_order[a] && order@[b] == old_order[b]);
                } else if b == pos {
                    assert(order@[a] == old_order[a]);
                } else if a < pos {
                    assert(order@[a] == old_order[a] && order@[b] == old_order[b - 1]);
                } else if a == pos {
                    assert(order@[b] == old_order[b - 1]);
                    assert(pos < old_order.len());
                    assert(priorities@[old_order[pos as int] as int] < priorities@[i as int]);
                    if b - 1 > pos {
                        assert(priority_before(priorities@, old_order[pos as int], old_order[b - 1]));
                    }
                } else {
                    assert(order@[a] == old_order[a - 1] && order@[b] == old_order[b - 1]);
                }
            }
        }
        i = i + 1;
    }
    order
}


/// The facts a merge plan of `keys` keeps: entries in range, no key twice,
/// every key present, and each kept entry the last one of its key.
pub open spec fn keeps_last_per_key(keys: Seq<Seq<char>>, plan: Seq<usize>) -> bool {
    let ks = plan_keys(keys, plan);
    &&& forall|k: int| 0 <= k < plan.len() ==> #[trigger] plan[k] < keys.len()
    &&& forall|a: int, b: int| 0 <= a < b < plan.len() ==> #[trigger] ks[a] != #[trigger] ks[b]
    &&& forall|j: int| 0 <= j < keys.len() ==> exists|k: int| 0 <= k < plan.len() && #[trigger] ks[k] == #[trigger] keys[j]
    &&& forall|k: int, j: int| 0 <= k < plan.len() && plan[k] < j < keys.len() ==> #[trigger] keys[j] != #[trigger] ks[k]
}

proof fn lemma_plan_keys_prefix(keys: Seq<Seq<char>>, plan: Seq<usize>)
    requires
        keys.len() > 0,
        forall|k: int| 0 <= k < plan.len() ==> #[trigger] plan[k] < keys.len() - 1,
    ensures
        plan_keys(keys, plan) == plan_keys(keys.drop_last(), plan),
{
    assert(plan_keys(keys, plan) =~= plan_keys(keys.drop_last(), plan));
}

proof fn lemma_merge_step_found(keys: Seq<Seq<char>>, prev: Seq<usize>, q: int)
    requires
        0 < keys.len() <= usize::MAX,
        keeps_last_per_key(keys.drop_last(), prev),
        0 <= q < prev.len(),
        plan_keys(keys.drop_last(), prev)[q] == keys.last(),
    ensures
        keeps_last_per_key(keys, prev.update(q, (keys.len() - 1) as usize)),
{
    let dl = keys.drop_last();
    let i = keys.len() - 1;
    let plan = prev.update(q, i as usize);
    let pk = plan_keys(dl, prev);
    lemma_plan_keys_prefix(keys, prev);
    assert forall|k: int| 0 <= k < plan.len() implies #[trigger] plan_keys(keys, plan)[k] == pk[k] by {
        if k != q {
            assert(plan[k] == prev[k]);
            assert(plan_keys(keys, prev)[k] == keys[prev[k] as int]);
        }
    }
    assert(plan_keys(keys, plan) =~= pk);
    let ks = plan_keys(keys, plan);
    assert forall|j: int| 0 <= j < keys.len() implies exists|k: int|
        0 <= k < plan.len() && #[trigger] ks[k] == #[trigger] keys[j] by {
        if j < i {
            assert(dl[j] == keys[j]);
            let k = choose|k: int| 0 <= k < prev.len() && #[trigger] pk[k] == #[trigger] dl[j];
            assert(ks[k] == keys[j]);
        } else {
            assert(ks[q] == keys[j]);
        }
    }
    assert forall|k: int, j: int| 0 <= k < plan.len() && plan[k] < j < keys.len() implies #[trigger] keys[j]
        != #[trigger] ks[k] by {
        if k != q {
            if j < i {
                assert(dl[j] == keys[j]);
                assert(prev[k] == plan[k]);
                assert(dl[j] != pk[k]);
            } else {
                assert(pk[q] != pk[k]);
            }
        }
    }
}

proof fn lemma_merge_step_new(keys: Seq<Seq<char>>, prev: Seq<usize>)
    requires
        0 < keys.len() <= usize::MAX,
        keeps_last_per_key(keys.drop_last(), prev),
        forall|k: int| 0 <= k < prev.len() ==> #[trigger] plan_keys(keys.drop_last(), prev)[k] != keys.last(),
    ensures
        keeps_last_per_key(keys, prev.push((keys.len() - 1) as usize)),
{
    let dl = keys.drop_last();
    let i = keys.len() - 1;
    let plan = prev.push(i as usize);
    let pk = plan_keys(dl, prev);
    lemma_plan_keys_prefix(keys, prev);
    assert forall|k: int| 0 <= k < plan.len() implies #[trigger] plan_keys(keys, plan)[k] == pk.push(keys.last())[k] by {
        if k < prev.len() {
            assert(plan[k] == prev[k]);
            assert(plan_keys(keys, prev)[k] == keys[prev[k] as int]);
        }
    }
    assert(plan_keys(keys, plan) =~= pk.push(keys.last()));
    let ks = plan_keys(keys, plan);
    assert forall|a: int, b: int| 0 <= a < b < plan.len() implies #[trigger] ks[a] != #[trigger] ks[b] by {
        if b < prev.len() {
            assert(pk[a] != pk[b]);
        } else {
            assert(pk[a] != keys.last());
        }
    }
    assert forall|j: int| 0 <= j < keys.len() implies exists|k: int|
        0 <= k < plan.len() && #[trigger] ks[k] == #[trigger] keys[j] by {
        if j < i {
            assert(dl[j] == keys[j]);
            let k = choose|k: int| 0 <= k < prev.len() && #[trigger] pk[k] == #[trigger] dl[j];
            assert(ks[k] == keys[j]);
        } else {
            assert(ks[prev.len() as int] == keys[j]);
        }
    }
    assert forall|k: int, j: int| 0 <= k < plan.len() && plan[k] < j < keys.len() implies #[trigger] keys[j]
        != #[trigger] ks[k] by {
        if k < prev.len() {
            if j < i {
                assert(dl[j] == keys[j]);
                assert(prev[k] == plan[k]);
                assert(dl[j] != pk[k]);
            } else {
                assert(pk[k] != keys.last());
            }
        }
    }
}

/// Merging by key keeps one entry per key: every key of the input is kept,
/// no key is kept twice, and the kept entry of a key is its last one (a
/// later file overrides an earlier one sharing its id).
pub proof fn lemma_merge_keeps_last_per_key(keys: Seq<Seq<char>>)
    requires
        keys.len() <= usize::MAX,
    ensures
        keeps_last_per_key(keys, merge_plan(keys)),
    decreases keys.len(),
{
    if keys.len() > 0 {
        let dl = keys.drop_last();
        lemma_merge_keeps_last_per_key(dl);
        let prev = merge_plan(dl);
        let pk = plan_keys(dl, prev);
        lemma_first_pos_bounds(pk, keys.last());
        match first_pos(pk, keys.last()) {
            Some(q) => lemma_merge_step_found(keys, prev, q),
            None => lemma_merge_step_new(keys, prev),
        }
    } else {
        assert(keeps_last_per_key(keys, Seq::empty()));
    }
}

proof fn lemma_position_of(defs: Seq<(Seq<char>, Option<Seq<char>>)>, name: Seq<char>)
    ensures
        position_of(defs, name) matches Some(k) ==> 0 <= k < defs.len() && defs[k].0 == name && forall|j: int|
            0 <= j < k ==> #[trigger] defs[j].0 != name,
        position_of(defs, name) is None ==> forall|j: int| 0 <= j < defs.len() ==> #[trigger] defs[j].0 != name,
    decreases defs.len(),
{
    if defs.len() > 0 && defs[0].0 != name {
        let rest = defs.drop_first();
        lemma_position_of(rest, name);
        assert forall|j: int| 0 < j < defs.len() implies #[trigger] defs[j] == rest[j - 1] by {}
    }
}

/// Upserting a definition replaces the first one of its name in place, or
/// appends it when its name is new; every definition of another name keeps
/// its position and value.
pub proof fn lemma_upsert_replaces_by_name(
    defs: Seq<(Seq<char>, Option<Seq<char>>)>,
    d: (Seq<char>, Option<Seq<char>>),
)
    ensures
        (exists|i: int| 0 <= i < defs.len() && #[trigger] defs[i].0 == d.0) ==> ({
            let u = upsert_def(defs, d);
            &&& u.len() == defs.len()
            &&& exists|i: int|
                0 <= i < defs.len() && defs[i].0 == d.0 && u[i] == d && forall|j: int|
                    0 <= j < i ==> #[trigger] defs[j].0 != d.0
        }),
        (forall|i: int| 0 <= i < defs.len() ==> #[trigger] defs[i].0 != d.0) ==> upsert_def(defs, d) == defs.push(d),
        forall|j: int| 0 <= j < defs.len() && #[trigger] defs[j].0 != d.0 ==> upsert_def(defs, d)[j] == defs[j],
{
    lemma_position_of(defs, d.0);
    if let Some(k) = position_of(defs, d.0) {
        let u = upsert_def(defs, d);
        assert(u == defs.update(k, d));
        assert(u[k] == d);
        assert(defs[k].0 == d.0);
    }
}

} // verus!
