//! The draw depends only on the candidate set and the seed: reordering the
//! candidates leaves the drawn candidates unchanged.

use vstd::prelude::*;
use crate::eval::draw::{
    capped_walk, members, repo_count, author_count, sha_keys, stratum_walk, take_walks, walk_lengths, Candidate,
    DrawParams,
};
use crate::eval::order::{key_before, lemma_sort_sorted, sort_by_key, sorted_by_key};
use crate::eval::records::{stratum_at, Stratum, STRATUM_COUNT};
use crate::eval::rng::{below_spec, lemma_below_bound, shuffle_from, shuffled};
use crate::eval::water::{is_water_filling, lemma_water_filling_unique};
use crate::text::{lemma_str_less_total, lemma_str_less_trans, str_less};

verus! {

/// A candidate as plain values: SHA, repository, author and stratum.
pub open spec fn cand_view(c: Candidate) -> (Seq<char>, Seq<char>, Seq<char>, Stratum) {
    (c.sha@, c.repo@, c.author@, c.stratum)
}

/// The candidates at the positions `idx`, as plain values.
pub open spec fn views_at(cands: Seq<Candidate>, idx: Seq<usize>) -> Seq<(Seq<char>, Seq<char>, Seq<char>, Stratum)> {
    idx.map_values(|j: usize| cand_view(cands[j as int]))
}

/// No two candidates share a SHA.
pub open spec fn distinct_shas(cands: Seq<Candidate>) -> bool {
    forall|i: int, j: int| 0 <= i < j < cands.len() ==> cands[i].sha@ != cands[j].sha@
}

/// `x` and `y` are the same candidate, as plain values.
pub open spec fn same_view(x: Candidate, y: Candidate) -> bool {
    cand_view(x) == cand_view(y)
}

/// Some candidate of `b` is `x`, as plain values.
pub open spec fn listed(b: Seq<Candidate>, x: Candidate) -> bool {
    exists|j: int| 0 <= j < b.len() && same_view(b[j], x)
}

/// Every candidate of `a` is also in `b`.
pub open spec fn covers(a: Seq<Candidate>, b: Seq<Candidate>) -> bool {
    forall|i: int| 0 <= i < a.len() ==> #[trigger] listed(b, a[i])
}

/// `a` and `b` hold the same candidates, in any order.
pub open spec fn same_candidates(a: Seq<Candidate>, b: Seq<Candidate>) -> bool {
    covers(a, b) && covers(b, a)
}

/// Candidate values strictly increasing by SHA.
pub open spec fn sha_sorted(vs: Seq<(Seq<char>, Seq<char>, Seq<char>, Stratum)>) -> bool {
    forall|i: int, j: int| 0 <= i < j < vs.len() ==> str_less(#[trigger] vs[i].0, #[trigger] vs[j].0)
}

proof fn lemma_members_shape(cands: Seq<Candidate>, stratum: Stratum)
    requires
        cands.len() <= usize::MAX,
    ensures
        forall|i: int, j: int| 0 <= i < j < members(cands, stratum).len() ==> #[trigger] members(cands, stratum)[i]
            < #[trigger] members(cands, stratum)[j],
        forall|p: int| 0 <= p < members(cands, stratum).len() ==> #[trigger] members(cands, stratum)[p] < cands.len(),
        forall|y: usize| #[trigger] members(cands, stratum).contains(y) <==> (y < cands.len() && cands[y as int].stratum
            == stratum),
        members(cands, stratum).len() <= cands.len(),
    decreases cands.len(),
{
    if cands.len() > 0 {
        let d = cands.drop_last();
        lemma_members_shape(d, stratum);
        let m = members(cands, stratum);
        let md = members(d, stratum);
        assert forall|i: int, j: int| 0 <= i < j < m.len() implies #[trigger] m[i] < #[trigger] m[j] by {
            if j < md.len() {
                assert(m[i] == md[i] && m[j] == md[j]);
            } else {
                assert(m[i] == md[i]);
                assert(md[i] < d.len());
            }
        }
        assert forall|y: usize| #[trigger] m.contains(y) <==> (y < cands.len() && cands[y as int].stratum == stratum) by {
            if md.contains(y) {
                let k = choose|k: int| 0 <= k < md.len() && md[k] == y;
                assert(m[k] == y);
            }
            if m.contains(y) {
                let k = choose|k: int| 0 <= k < m.len() && m[k] == y;
                if k < md.len() {
                    assert(md[k] == y);
                    assert(d[y as int] == cands[y as int]);
                }
            }
            if y < cands.len() && cands[y as int].stratum == stratum {
                if y < d.len() {
                    assert(d[y as int] == cands[y as int]);
                    assert(md.contains(y));
                    let k = choose|k: int| 0 <= k < md.len() && md[k] == y;
                    assert(m[k] == y);
                } else {
                    assert(m[m.len() - 1] == y);
                }
            }
        }
    }
}

/// The stratum's members sorted by SHA, as values.
pub open spec fn sorted_member_views(cands: Seq<Candidate>, stratum: Stratum) -> Seq<
    (Seq<char>, Seq<char>, Seq<char>, Stratum),
> {
    views_at(cands, sort_by_key(sha_keys(cands), members(cands, stratum)))
}

proof fn lemma_sorted_member_views(cands: Seq<Candidate>, stratum: Stratum)
    requires
        cands.len() <= usize::MAX,
        distinct_shas(cands),
    ensures
        sha_sorted(sorted_member_views(cands, stratum)),
        forall|v: (Seq<char>, Seq<char>, Seq<char>, Stratum)| #[trigger] sorted_member_views(cands, stratum).contains(v)
            <==> in_stratum(cands, stratum, v),
{
    let keys = sha_keys(cands);
    let m = members(cands, stratum);
    lemma_members_shape(cands, stratum);
    assert forall|i: int, j: int| 0 <= i < j < m.len() implies m[i] != m[j] by {
        assert(m[i] < m[j]);
    }
    lemma_sort_sorted(keys, m);
    let sm = sort_by_key(keys, m);
    let vs = sorted_member_views(cands, stratum);
    assert forall|y: usize| sm.contains(y) implies y < cands.len() by {
        assert(m.contains(y));
    }
    assert forall|i: int, j: int| 0 <= i < j < vs.len() implies str_less(#[trigger] vs[i].0, #[trigger] vs[j].0) by {
        assert(key_before(keys, sm[i], sm[j]));
        assert(sm.contains(sm[i]) && sm.contains(sm[j]));
        assert(m.contains(sm[i]) && m.contains(sm[j]));
        assert(sm[i] != sm[j]) by {
            lemma_str_less_total(keys[sm[i] as int], keys[sm[i] as int]);
        }
        if sm[i] < sm[j] {
            assert(cands[sm[i] as int].sha@ != cands[sm[j] as int].sha@);
        } else {
            assert(cands[sm[j] as int].sha@ != cands[sm[i] as int].sha@);
        }
    }
    assert forall|v: (Seq<char>, Seq<char>, Seq<char>, Stratum)| #[trigger] vs.contains(v) <==> exists|i: int|
        0 <= i < cands.len() && cands[i].stratum == stratum && cand_view(cands[i]) == v by {
        if vs.contains(v) {
            let k = choose|k: int| 0 <= k < vs.len() && vs[k] == v;
            assert(sm.contains(sm[k]));
            assert(m.contains(sm[k]));
            let i = sm[k] as int;
            assert(cands[i].stratum == stratum && cand_view(cands[i]) == v);
        }
        if exists|i: int| 0 <= i < cands.len() && cands[i].stratum == stratum && cand_view(cands[i]) == v {
            let i = choose|i: int| 0 <= i < cands.len() && cands[i].stratum == stratum && cand_view(cands[i]) == v;
            assert(m.contains(i as usize));
            assert(sm.contains(i as usize));
            let k = choose|k: int| 0 <= k < sm.len() && sm[k] == i as usize;
            assert(vs[k] == v);
        }
    }
}

/// Two SHA-sorted sequences of candidate values holding the same values
/// are equal.
proof fn lemma_sorted_unique(
    u: Seq<(Seq<char>, Seq<char>, Seq<char>, Stratum)>,
    v: Seq<(Seq<char>, Seq<char>, Seq<char>, Stratum)>,
)
    requires
        sha_sorted(u),
        sha_sorted(v),
        forall|x: (Seq<char>, Seq<char>, Seq<char>, Stratum)| u.contains(x) <==> v.contains(x),
    ensures
        u == v,
    decreases u.len() + v.len(),
{
    if u.len() == 0 {
        if v.len() > 0 {
            assert(v.contains(v[0]));
        }
        assert(u =~= v);
    } else if v.len() == 0 {
        assert(u.contains(u[0]));
    } else {
        assert(u.contains(u[0]));
        let k = choose|k: int| 0 <= k < v.len() && v[k] == u[0];
        assert(v.contains(v[0]));
        let m = choose|m: int| 0 <= m < u.len() && u[m] == v[0];
        if k > 0 {
            assert(str_less(v[0].0, v[k].0));
            if m > 0 {
                assert(str_less(u[0].0, u[m].0));
                lemma_str_less_trans(u[0].0, v[0].0, u[0].0);
            }
            lemma_str_less_total(u[0].0, u[0].0);
        }
        assert(u[0] == v[0]);
        let ut = u.drop_first();
        let vt = v.drop_first();
        assert(sha_sorted(ut)) by {
            assert forall|i: int, j: int| 0 <= i < j < ut.len() implies str_less(#[trigger] ut[i].0, #[trigger] ut[j].0) by {
                assert(ut[i] == u[i + 1] && ut[j] == u[j + 1]);
            }
        }
        assert(sha_sorted(vt)) by {
            assert forall|i: int, j: int| 0 <= i < j < vt.len() implies str_less(#[trigger] vt[i].0, #[trigger] vt[j].0) by {
                assert(vt[i] == v[i + 1] && vt[j] == v[j + 1]);
            }
        }
        assert forall|x: (Seq<char>, Seq<char>, Seq<char>, Stratum)| ut.contains(x) <==> vt.contains(x) by {
            if ut.contains(x) {
                let p = choose|p: int| 0 <= p < ut.len() && ut[p] == x;
                assert(u[p + 1] == x);
                assert(u.contains(x));
                assert(str_less(u[0].0, u[p + 1].0));
                lemma_str_less_total(u[0].0, u[0].0);
                assert(x != v[0]);
                let q = choose|q: int| 0 <= q < v.len() && v[q] == x;
                assert(q > 0);
                assert(vt[q - 1] == x);
            }
            if vt.contains(x) {
                let p = choose|p: int| 0 <= p < vt.len() && vt[p] == x;
                assert(v[p + 1] == x);
                assert(v.contains(x));
                assert(str_less(v[0].0, v[p + 1].0));
                lemma_str_less_total(v[0].0, v[0].0);
                assert(x != u[0]);
                let q = choose|q: int| 0 <= q < u.len() && u[q] == x;
                assert(q > 0);
                assert(ut[q - 1] == x);
            }
        }
        lemma_sorted_unique(ut, vt);
        assert(u =~= seq![u[0]] + ut);
        assert(v =~= seq![v[0]] + vt);
    }
}


proof fn lemma_shuffle_map<T, U>(items: Seq<T>, f: spec_fn(T) -> U, state: u64, i: int)
    requires
        items.len() <= u64::MAX,
    ensures
        shuffle_from(items, state, i).map_values(f) == shuffle_from(items.map_values(f), state, i),
    decreases i,
{
    if i <= 0 || i >= items.len() {
    } else {
        let (next, j) = below_spec(state, (i + 1) as u64);
        lemma_below_bound(state, (i + 1) as u64);
        let swapped = items.update(i, items[j as int]).update(j as int, items[i]);
        let mapped = items.map_values(f);
        assert(swapped.map_values(f) =~= mapped.update(i, mapped[j as int]).update(j as int, mapped[i]));
        lemma_shuffle_map(swapped, f, next, i - 1);
    }
}

/// Entries of `w` in repository `repo`.
pub open spec fn repo_count_v(w: Seq<(Seq<char>, Seq<char>, Seq<char>, Stratum)>, repo: Seq<char>) -> int
    decreases w.len(),
{
    if w.len() == 0 {
        0
    } else {
        repo_count_v(w.drop_last(), repo) + if w.last().1 == repo { 1int } else { 0 }
    }
}

/// Entries of `w` with author `author`.
pub open spec fn author_count_v(w: Seq<(Seq<char>, Seq<char>, Seq<char>, Stratum)>, author: Seq<char>) -> int
    decreases w.len(),
{
    if w.len() == 0 {
        0
    } else {
        author_count_v(w.drop_last(), author) + if w.last().2 == author { 1int } else { 0 }
    }
}

/// The capped walk over candidate values.
pub open spec fn walk_v(vs: Seq<(Seq<char>, Seq<char>, Seq<char>, Stratum)>, cap: usize) -> Seq<
    (Seq<char>, Seq<char>, Seq<char>, Stratum),
>
    decreases vs.len(),
{
    if vs.len() == 0 {
        Seq::empty()
    } else {
        let w = walk_v(vs.drop_last(), cap);
        let c = vs.last();
        if repo_count_v(w, c.1) < cap && author_count_v(w, c.2) < cap {
            w.push(c)
        } else {
            w
        }
    }
}

proof fn lemma_counts_as_views(cands: Seq<Candidate>, walk: Seq<usize>, key: Seq<char>)
    ensures
        repo_count(cands, walk, key) == repo_count_v(views_at(cands, walk), key),
        author_count(cands, walk, key) == author_count_v(views_at(cands, walk), key),
    decreases walk.len(),
{
    if walk.len() > 0 {
        lemma_counts_as_views(cands, walk.drop_last(), key);
        assert(views_at(cands, walk.drop_last()) =~= views_at(cands, walk).drop_last());
    }
}

proof fn lemma_walk_as_views(cands: Seq<Candidate>, order: Seq<usize>, cap: usize)
    ensures
        views_at(cands, capped_walk(cands, order, cap)) == walk_v(views_at(cands, order), cap),
    decreases order.len(),
{
    if order.len() > 0 {
        let d = order.drop_last();
        lemma_walk_as_views(cands, d, cap);
        let w = capped_walk(cands, d, cap);
        let c = cands[order.last() as int];
        lemma_counts_as_views(cands, w, c.repo@);
        lemma_counts_as_views(cands, w, c.author@);
        assert(views_at(cands, d) =~= views_at(cands, order).drop_last());
        assert(views_at(cands, w.push(order.last())) =~= views_at(cands, w).push(cand_view(c)));
    }
}

/// Some candidate of `stratum` has the values `x`.
pub open spec fn in_stratum(cands: Seq<Candidate>, stratum: Stratum, x: (Seq<char>, Seq<char>, Seq<char>, Stratum)) -> bool {
    exists|i: int| 0 <= i < cands.len() && cands[i].stratum == stratum && cand_view(cands[i]) == x
}

proof fn lemma_in_stratum_transfer(
    a: Seq<Candidate>,
    b: Seq<Candidate>,
    stratum: Stratum,
    x: (Seq<char>, Seq<char>, Seq<char>, Stratum),
)
    requires
        covers(a, b),
        in_stratum(a, stratum, x),
    ensures
        in_stratum(b, stratum, x),
{
    let i = choose|i: int| 0 <= i < a.len() && a[i].stratum == stratum && cand_view(a[i]) == x;
    assert(listed(b, a[i]));
    let j = choose|j: int| 0 <= j < b.len() && same_view(b[j], a[i]);
    assert(b[j].stratum == stratum);
}

proof fn lemma_sorted_views_agree(a: Seq<Candidate>, b: Seq<Candidate>, stratum: Stratum)
    requires
        a.len() <= usize::MAX,
        b.len() <= usize::MAX,
        distinct_shas(a),
        distinct_shas(b),
        same_candidates(a, b),
    ensures
        sorted_member_views(a, stratum) == sorted_member_views(b, stratum),
{
    lemma_sorted_member_views(a, stratum);
    lemma_sorted_member_views(b, stratum);
    let ua = sorted_member_views(a, stratum);
    let ub = sorted_member_views(b, stratum);
    assert forall|x: (Seq<char>, Seq<char>, Seq<char>, Stratum)| ua.contains(x) <==> ub.contains(x) by {
        if ua.contains(x) {
            assert(in_stratum(a, stratum, x));
            lemma_in_stratum_transfer(a, b, stratum, x);
        }
        if ub.contains(x) {
            assert(in_stratum(b, stratum, x));
            lemma_in_stratum_transfer(b, a, stratum, x);
        }
    }
    lemma_sorted_unique(ua, ub);
}

proof fn lemma_stratum_walk_as_views(cands: Seq<Candidate>, params: DrawParams, stratum: Stratum)
    requires
        cands.len() <= usize::MAX,
    ensures
        views_at(cands, stratum_walk(cands, params, stratum)) == walk_v(
            shuffled(sorted_member_views(cands, stratum), crate::eval::draw::stratum_seed_of(params.seed, stratum)),
            params.cap,
        ),
{
    let seed = crate::eval::draw::stratum_seed_of(params.seed, stratum);
    let sa = sort_by_key(sha_keys(cands), members(cands, stratum));
    lemma_members_shape(cands, stratum);
    crate::eval::order::lemma_sort_bounds(sha_keys(cands), members(cands, stratum));
    let f = |j: usize| cand_view(cands[j as int]);
    lemma_shuffle_map(sa, f, seed, sa.len() - 1);
    assert(views_at(cands, shuffled(sa, seed)) == shuffled(sorted_member_views(cands, stratum), seed));
    lemma_walk_as_views(cands, shuffled(sa, seed), params.cap);
}

proof fn lemma_stratum_walks_agree(a: Seq<Candidate>, b: Seq<Candidate>, params: DrawParams, stratum: Stratum)
    requires
        a.len() <= usize::MAX,
        b.len() <= usize::MAX,
        distinct_shas(a),
        distinct_shas(b),
        same_candidates(a, b),
    ensures
        views_at(a, stratum_walk(a, params, stratum)) == views_at(b, stratum_walk(b, params, stratum)),
{
    lemma_sorted_views_agree(a, b, stratum);
    lemma_stratum_walk_as_views(a, params, stratum);
    lemma_stratum_walk_as_views(b, params, stratum);
}

proof fn lemma_take_walks_agree(a: Seq<Candidate>, b: Seq<Candidate>, params: DrawParams, alloc: Seq<usize>, k: int)
    requires
        k <= alloc.len(),
        forall|q: int| 0 <= q < k ==> #[trigger] alloc[q] <= stratum_walk(a, params, stratum_at(q)).len(),
        forall|q: int|
            0 <= q < k ==> views_at(a, #[trigger] stratum_walk(a, params, stratum_at(q))) == views_at(
                b,
                stratum_walk(b, params, stratum_at(q)),
            ),
    ensures
        views_at(a, take_walks(a, params, alloc, k)) == views_at(b, take_walks(b, params, alloc, k)),
    decreases k,
{
    if k > 0 {
        lemma_take_walks_agree(a, b, params, alloc, k - 1);
        let wa = stratum_walk(a, params, stratum_at(k - 1));
        let wb = stratum_walk(b, params, stratum_at(k - 1));
        let n = alloc[k - 1] as int;
        assert(alloc[k - 1] <= wa.len());
        assert(views_at(a, wa).len() == wa.len());
        assert(views_at(b, wb).len() == wb.len());
        assert(views_at(a, wa) == views_at(b, wb));
        assert(views_at(a, wa.take(n)) =~= views_at(a, wa).take(n));
        assert(views_at(b, wb.take(n)) =~= views_at(b, wb).take(n));
        let ta = take_walks(a, params, alloc, k - 1);
        let tb = take_walks(b, params, alloc, k - 1);
        assert(views_at(a, ta + wa.take(n)) =~= views_at(a, ta) + views_at(a, wa.take(n)));
        assert(views_at(b, tb + wb.take(n)) =~= views_at(b, tb) + views_at(b, wb.take(n)));
    }
}

/// The draw depends only on the candidate set and the seed: two candidate
/// lists holding the same candidates (SHAs unique) in any order give every
/// stratum the same population and the same capacity, hence the same
/// allocation, and the drawn candidates are the same, in the same order.
pub proof fn lemma_draw_ignores_input_order(
    a: Seq<Candidate>,
    b: Seq<Candidate>,
    params: DrawParams,
    alloc_a: Seq<usize>,
    alloc_b: Seq<usize>,
)
    requires
        a.len() <= usize::MAX,
        b.len() <= usize::MAX,
        distinct_shas(a),
        distinct_shas(b),
        same_candidates(a, b),
        is_water_filling(params.size as int, walk_lengths(a, params), alloc_a),
        is_water_filling(params.size as int, walk_lengths(b, params), alloc_b),
    ensures
        forall|q: int| 0 <= q < STRATUM_COUNT ==> #[trigger] members(a, stratum_at(q)).len() == members(
            b,
            stratum_at(q),
        ).len(),
        walk_lengths(a, params) == walk_lengths(b, params),
        alloc_a == alloc_b,
        views_at(a, take_walks(a, params, alloc_a, STRATUM_COUNT as int)) == views_at(
            b,
            take_walks(b, params, alloc_b, STRATUM_COUNT as int),
        ),
{
    assert forall|q: int| 0 <= q < STRATUM_COUNT implies views_at(a, #[trigger] stratum_walk(a, params, stratum_at(q)))
        == views_at(b, stratum_walk(b, params, stratum_at(q))) by {
        lemma_stratum_walks_agree(a, b, params, stratum_at(q));
    }
    assert forall|q: int| 0 <= q < STRATUM_COUNT implies #[trigger] walk_lengths(a, params)[q] == walk_lengths(
        b,
        params,
    )[q] by {
        assert(views_at(a, stratum_walk(a, params, stratum_at(q))).len() == stratum_walk(a, params, stratum_at(q)).len());
        assert(views_at(b, stratum_walk(b, params, stratum_at(q))).len() == stratum_walk(b, params, stratum_at(q)).len());
    }
    assert(walk_lengths(a, params) =~= walk_lengths(b, params));
    lemma_water_filling_unique(params.size as int, walk_lengths(a, params), alloc_a, alloc_b);
    crate::eval::water::lemma_water_filling_laws(params.size as int, walk_lengths(a, params), alloc_a);
    assert forall|q: int| 0 <= q < STRATUM_COUNT implies #[trigger] alloc_a[q] <= stratum_walk(
        a,
        params,
        stratum_at(q),
    ).len() by {
        assert(alloc_a[q] <= walk_lengths(a, params)[q]);
    }
    lemma_take_walks_agree(a, b, params, alloc_a, STRATUM_COUNT as int);
    assert forall|q: int| 0 <= q < STRATUM_COUNT implies #[trigger] members(a, stratum_at(q)).len() == members(
        b,
        stratum_at(q),
    ).len() by {
        lemma_sorted_views_agree(a, b, stratum_at(q));
        lemma_members_shape(a, stratum_at(q));
        lemma_members_shape(b, stratum_at(q));
        crate::eval::order::lemma_sort_bounds(sha_keys(a), members(a, stratum_at(q)));
        crate::eval::order::lemma_sort_bounds(sha_keys(b), members(b, stratum_at(q)));
        assert(sorted_member_views(a, stratum_at(q)).len() == members(a, stratum_at(q)).len());
        assert(sorted_member_views(b, stratum_at(q)).len() == members(b, stratum_at(q)).len());
    }
}

/// Two candidate lists holding the same candidates (SHAs unique) in any
/// order list each stratum's members alike once sorted by SHA and shuffled
/// with the same seed.
pub(crate) proof fn lemma_shuffled_members_agree(a: Seq<Candidate>, b: Seq<Candidate>, stratum: Stratum, seed: u64)
    requires
        a.len() <= usize::MAX,
        b.len() <= usize::MAX,
        distinct_shas(a),
        distinct_shas(b),
        same_candidates(a, b),
    ensures
        views_at(a, shuffled(sort_by_key(sha_keys(a), members(a, stratum)), seed)) == views_at(
            b,
            shuffled(sort_by_key(sha_keys(b), members(b, stratum)), seed),
        ),
        members(a, stratum).len() == members(b, stratum).len(),
{
    lemma_sorted_views_agree(a, b, stratum);
    let sa = sort_by_key(sha_keys(a), members(a, stratum));
    let sb = sort_by_key(sha_keys(b), members(b, stratum));
    lemma_members_shape(a, stratum);
    lemma_members_shape(b, stratum);
    crate::eval::order::lemma_sort_bounds(sha_keys(a), members(a, stratum));
    crate::eval::order::lemma_sort_bounds(sha_keys(b), members(b, stratum));
    let fa = |j: usize| cand_view(a[j as int]);
    let fb = |j: usize| cand_view(b[j as int]);
    lemma_shuffle_map(sa, fa, seed, sa.len() - 1);
    lemma_shuffle_map(sb, fb, seed, sb.len() - 1);
    assert(views_at(a, shuffled(sa, seed)) == shuffled(sorted_member_views(a, stratum), seed));
    assert(views_at(b, shuffled(sb, seed)) == shuffled(sorted_member_views(b, stratum), seed));
    assert(sorted_member_views(a, stratum).len() == members(a, stratum).len());
    assert(sorted_member_views(b, stratum).len() == members(b, stratum).len());
}

} // verus!
