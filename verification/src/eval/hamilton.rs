//! Hamilton's (largest-remainder) apportionment of a subset size across
//! strata in proportion to their row counts.

use vstd::prelude::*;
use crate::eval::water::{min_int, sum_usize, total};
use vstd::set_lib::{lemma_int_range, lemma_len_subset, lemma_map_size, set_int_range};

verus! {

/// The size actually apportioned: `size`, clipped to the total row count.
pub open spec fn clipped_size(size: int, counts: Seq<usize>) -> int {
    min_int(size, total(counts))
}

/// Whole part of group `i`'s proportional quota.
pub open spec fn quota(size: int, counts: Seq<usize>, i: int) -> int {
    clipped_size(size, counts) * counts[i] / total(counts)
}

/// Fractional part of group `i`'s quota, scaled by the total.
pub open spec fn quota_rem(size: int, counts: Seq<usize>, i: int) -> int {
    clipped_size(size, counts) * counts[i] % total(counts)
}

/// Sum of the whole quotas of the first `k` groups.
pub open spec fn quota_sum(size: int, counts: Seq<usize>, k: int) -> int
    decreases k,
{
    if k <= 0 {
        0
    } else {
        quota_sum(size, counts, k - 1) + quota(size, counts, k - 1)
    }
}

/// Rows left over after every group got its whole quota.
pub open spec fn leftover(size: int, counts: Seq<usize>) -> int {
    clipped_size(size, counts) - quota_sum(size, counts, counts.len() as int)
}

/// Group `j` comes before group `i` in the top-up order: a larger
/// remainder first, ties to the earlier group.
pub open spec fn tops_before(size: int, counts: Seq<usize>, j: int, i: int) -> bool {
    quota_rem(size, counts, j) > quota_rem(size, counts, i) || (quota_rem(size, counts, j)
        == quota_rem(size, counts, i) && j < i)
}

/// Number of groups among the first `k` that come before group `i`.
pub open spec fn count_before(size: int, counts: Seq<usize>, i: int, k: int) -> int
    decreases k,
{
    if k <= 0 {
        0
    } else {
        count_before(size, counts, i, k - 1) + if tops_before(size, counts, k - 1, i) {
            1int
        } else {
            0
        }
    }
}

/// Position of group `i` in the top-up order.
pub open spec fn top_up_rank(size: int, counts: Seq<usize>, i: int) -> int {
    count_before(size, counts, i, counts.len() as int)
}

/// Hamilton share of group `i`: its whole quota, plus one row when it is
/// among the first `leftover` groups of the top-up order.
pub open spec fn hamilton_share(size: int, counts: Seq<usize>, i: int) -> int {
    quota(size, counts, i) + if top_up_rank(size, counts, i) < leftover(size, counts) {
        1int
    } else {
        0
    }
}

/// Sum of the remainders of the first `k` groups.
pub open spec fn rem_sum(size: int, counts: Seq<usize>, k: int) -> int
    decreases k,
{
    if k <= 0 {
        0
    } else {
        rem_sum(size, counts, k - 1) + quota_rem(size, counts, k - 1)
    }
}

/// Number of groups among the first `k` with a non-zero remainder.
pub open spec fn rem_positive(size: int, counts: Seq<usize>, k: int) -> int
    decreases k,
{
    if k <= 0 {
        0
    } else {
        rem_positive(size, counts, k - 1) + if quota_rem(size, counts, k - 1) > 0 {
            1int
        } else {
            0
        }
    }
}

pub proof fn lemma_clipped_size_bounds(size: int, counts: Seq<usize>)
    requires
        size >= 0,
        total(counts) > 0,
    ensures
        0 <= clipped_size(size, counts) <= total(counts),
        clipped_size(size, counts) <= size,
{
}

proof fn lemma_quota_parts(size: int, counts: Seq<usize>, i: int)
    requires
        size >= 0,
        total(counts) > 0,
        0 <= i < counts.len(),
    ensures
        quota(size, counts, i) * total(counts) + quota_rem(size, counts, i) == clipped_size(size, counts)
            * counts[i],
        0 <= quota_rem(size, counts, i) < total(counts),
        0 <= quota(size, counts, i),
{
    lemma_clipped_size_bounds(size, counts);
    let t = total(counts);
    let x = clipped_size(size, counts) * counts[i];
    assert(clipped_size(size, counts) * counts[i] >= 0) by (nonlinear_arith)
        requires
            clipped_size(size, counts) >= 0,
            counts[i] >= 0,
    ;
    vstd::arithmetic::div_mod::lemma_fundamental_div_mod(x, t);
    assert(x / t * t == t * (x / t)) by (nonlinear_arith);
    vstd::arithmetic::div_mod::lemma_div_pos_is_pos(x, t);
}

proof fn lemma_prefix_parts(size: int, counts: Seq<usize>, k: int)
    requires
        size >= 0,
        total(counts) > 0,
        0 <= k <= counts.len(),
    ensures
        quota_sum(size, counts, k) * total(counts) + rem_sum(size, counts, k) == clipped_size(size, counts)
            * total(counts.take(k)),
        0 <= rem_sum(size, counts, k) <= rem_positive(size, counts, k) * (total(counts) - 1),
        0 <= rem_positive(size, counts, k) <= k,
    decreases k,
{
    if k > 0 {
        lemma_prefix_parts(size, counts, k - 1);
        lemma_quota_parts(size, counts, k - 1);
        assert(counts.take(k).drop_last() == counts.take(k - 1));
        let t = total(counts);
        let qs = quota_sum(size, counts, k - 1);
        let q = quota(size, counts, k - 1);
        let cs = clipped_size(size, counts);
        assert((qs + q) * t == qs * t + q * t) by (nonlinear_arith);
        assert(cs * (total(counts.take(k - 1)) + counts[k - 1]) == cs * total(counts.take(k - 1)) + cs
            * counts[k - 1]) by (nonlinear_arith);
        let p = rem_positive(size, counts, k - 1);
        assert((p + 1) * (t - 1) == p * (t - 1) + (t - 1)) by (nonlinear_arith);
    }
}

proof fn lemma_zero_rem_rank(size: int, counts: Seq<usize>, g: int, k: int)
    requires
        0 <= g < counts.len(),
        quota_rem(size, counts, g) == 0,
        0 <= k <= counts.len(),
        forall|j: int| 0 <= j < counts.len() ==> quota_rem(size, counts, j) >= 0,
    ensures
        count_before(size, counts, g, k) >= rem_positive(size, counts, k),
    decreases k,
{
    if k > 0 {
        lemma_zero_rem_rank(size, counts, g, k - 1);
    }
}

/// A group that is topped up had a non-zero remainder, so its whole quota
/// was below its row count.
pub proof fn lemma_topped_up_below_count(size: int, counts: Seq<usize>, g: int)
    requires
        size >= 0,
        total(counts) > 0,
        0 <= g < counts.len(),
        top_up_rank(size, counts, g) < leftover(size, counts),
    ensures
        quota_rem(size, counts, g) > 0,
        quota(size, counts, g) < counts[g],
{
    let n = counts.len() as int;
    let t = total(counts);
    lemma_prefix_parts(size, counts, n);
    assert(counts.take(n) == counts);
    lemma_quota_parts(size, counts, g);
    lemma_clipped_size_bounds(size, counts);
    let cs = clipped_size(size, counts);
    let left = leftover(size, counts);
    let rs = rem_sum(size, counts, n);
    let p = rem_positive(size, counts, n);
    assert(rs == t * left) by (nonlinear_arith)
        requires
            quota_sum(size, counts, n) * t + rs == cs * t,
            left == cs - quota_sum(size, counts, n),
    ;
    if quota_rem(size, counts, g) == 0 {
        assert forall|j: int| 0 <= j < counts.len() implies quota_rem(size, counts, j) >= 0 by {
            lemma_quota_parts(size, counts, j);
        }
        lemma_zero_rem_rank(size, counts, g, n);
        assert(top_up_rank(size, counts, g) >= p);
        assert(false) by (nonlinear_arith)
            requires
                rs == t * left,
                rs <= p * (t - 1),
                p < left,
                p >= 0,
                t > 0,
        ;
    }
    assert(quota(size, counts, g) < counts[g]) by (nonlinear_arith)
        requires
            quota(size, counts, g) * t + quota_rem(size, counts, g) == cs * counts[g],
            quota_rem(size, counts, g) > 0,
            cs <= t,
            counts[g] >= 0,
            t > 0,
    ;
}

proof fn lemma_rank_step(size: int, counts: Seq<usize>, i: int, k: int, m: int)
    requires
        0 <= i < counts.len(),
        0 <= k < counts.len(),
        tops_before(size, counts, k, i),
        0 <= m <= counts.len(),
    ensures
        count_before(size, counts, i, m) >= count_before(size, counts, k, m) + if k < m {
            1int
        } else {
            0
        },
    decreases m,
{
    if m > 0 {
        lemma_rank_step(size, counts, i, k, m - 1);
    }
}

proof fn lemma_rank_bound(size: int, counts: Seq<usize>, i: int, m: int)
    requires
        0 <= i < counts.len(),
        0 <= m <= counts.len(),
    ensures
        0 <= count_before(size, counts, i, m) <= if i < m {
            m - 1
        } else {
            m
        },
    decreases m,
{
    if m > 0 {
        lemma_rank_bound(size, counts, i, m - 1);
    }
}

/// Groups topped up among the first `k` when `l` rows are left over.
pub open spec fn topped_count(size: int, counts: Seq<usize>, l: int, k: int) -> int
    decreases k,
{
    if k <= 0 {
        0
    } else {
        topped_count(size, counts, l, k - 1) + if top_up_rank(size, counts, k - 1) < l {
            1int
        } else {
            0
        }
    }
}

proof fn lemma_topped_count_is_set_len(size: int, counts: Seq<usize>, l: int, k: int)
    requires
        0 <= k <= counts.len(),
    ensures
        Set::new(|i: int| 0 <= i < k && top_up_rank(size, counts, i) < l).finite(),
        topped_count(size, counts, l, k) == Set::new(
            |i: int| 0 <= i < k && top_up_rank(size, counts, i) < l,
        ).len(),
        Set::new(|i: int| 0 <= i < k && top_up_rank(size, counts, i) >= l).finite(),
        k - topped_count(size, counts, l, k) == Set::new(
            |i: int| 0 <= i < k && top_up_rank(size, counts, i) >= l,
        ).len(),
    decreases k,
{
    let lo = Set::new(|i: int| 0 <= i < k && top_up_rank(size, counts, i) < l);
    let hi = Set::new(|i: int| 0 <= i < k && top_up_rank(size, counts, i) >= l);
    if k == 0 {
        assert(lo =~= Set::empty());
        assert(hi =~= Set::empty());
    } else {
        lemma_topped_count_is_set_len(size, counts, l, k - 1);
        let lo0 = Set::new(|i: int| 0 <= i < k - 1 && top_up_rank(size, counts, i) < l);
        let hi0 = Set::new(|i: int| 0 <= i < k - 1 && top_up_rank(size, counts, i) >= l);
        if top_up_rank(size, counts, k - 1) < l {
            assert(lo =~= lo0.insert(k - 1));
            assert(hi =~= hi0);
        } else {
            assert(lo =~= lo0);
            assert(hi =~= hi0.insert(k - 1));
        }
    }
}

/// Exactly `l` groups are topped up when `l` rows are left over and
/// `l` does not exceed the number of groups: the top-up ranks are distinct
/// positions `0 .. n`.
proof fn lemma_topped_exactly(size: int, counts: Seq<usize>, l: int)
    requires
        0 <= l <= counts.len(),
    ensures
        topped_count(size, counts, l, counts.len() as int) == l,
{
    let n = counts.len() as int;
    let rank = |i: int| top_up_rank(size, counts, i);
    lemma_topped_count_is_set_len(size, counts, l, n);
    let lo = Set::new(|i: int| 0 <= i < n && top_up_rank(size, counts, i) < l);
    let hi = Set::new(|i: int| 0 <= i < n && top_up_rank(size, counts, i) >= l);
    assert forall|i: int, k: int| #![trigger rank(i), rank(k)]
        0 <= i < n && 0 <= k < n && i != k implies rank(i) != rank(k) by {
        if tops_before(size, counts, k, i) {
            lemma_rank_step(size, counts, i, k, n);
        } else {
            lemma_rank_step(size, counts, k, i, n);
        }
    }
    assert forall|i: int| 0 <= i < n implies 0 <= #[trigger] rank(i) < n by {
        lemma_rank_bound(size, counts, i, n);
    }
    lemma_map_size(lo, lo.map(rank), rank);
    lemma_int_range(0, l);
    lemma_len_subset(lo.map(rank), set_int_range(0, l));
    lemma_map_size(hi, hi.map(rank), rank);
    lemma_int_range(l, n);
    lemma_len_subset(hi.map(rank), set_int_range(l, n));
}

/// No group's share exceeds its row count.
pub proof fn lemma_share_within_count(size: int, counts: Seq<usize>, i: int)
    requires
        size >= 0,
        total(counts) > 0,
        0 <= i < counts.len(),
    ensures
        hamilton_share(size, counts, i) <= counts[i],
{
    let t = total(counts);
    lemma_quota_parts(size, counts, i);
    lemma_clipped_size_bounds(size, counts);
    let cs = clipped_size(size, counts);
    assert(quota(size, counts, i) <= counts[i]) by (nonlinear_arith)
        requires
            quota(size, counts, i) * t + quota_rem(size, counts, i) == cs * counts[i],
            quota_rem(size, counts, i) >= 0,
            cs <= t,
            counts[i] >= 0,
            t > 0,
    ;
    if top_up_rank(size, counts, i) < leftover(size, counts) {
        lemma_topped_up_below_count(size, counts, i);
    }
}

/// What Hamilton's method guarantees: no group gets more than its row
/// count, an empty group gets nothing, and the shares add up exactly to the
/// apportioned size `min(size, total)`, where rounding each quota on its
/// own could miss it.
pub proof fn lemma_hamilton_laws(size: int, counts: Seq<usize>, alloc: Seq<usize>)
    requires
        size >= 0,
        alloc.len() == counts.len(),
        total(counts) == 0 ==> forall|i: int| 0 <= i < counts.len() ==> alloc[i] == 0,
        total(counts) > 0 ==> forall|i: int|
            0 <= i < counts.len() ==> #[trigger] alloc[i] == hamilton_share(size, counts, i),
    ensures
        forall|i: int| 0 <= i < counts.len() ==> #[trigger] alloc[i] <= counts[i],
        forall|i: int| 0 <= i < counts.len() && counts[i] == 0 ==> #[trigger] alloc[i] == 0,
        sum_usize(alloc) == min_int(size, total(counts)),
{
    let n = counts.len() as int;
    let t = total(counts);
    lemma_total_nonneg(counts);
    if t == 0 {
        lemma_sum_zero(alloc);
    } else {
        lemma_clipped_size_bounds(size, counts);
        assert forall|i: int| 0 <= i < n implies #[trigger] alloc[i] <= counts[i] && (counts[i] == 0
            ==> alloc[i] == 0) by {
            lemma_quota_parts(size, counts, i);
            let cs = clipped_size(size, counts);
            assert(quota(size, counts, i) <= counts[i]) by (nonlinear_arith)
                requires
                    quota(size, counts, i) * t + quota_rem(size, counts, i) == cs * counts[i],
                    quota_rem(size, counts, i) >= 0,
                    cs <= t,
                    counts[i] >= 0,
                    t > 0,
            ;
            if top_up_rank(size, counts, i) < leftover(size, counts) {
                lemma_topped_up_below_count(size, counts, i);
            }
        }
        // the leftover does not exceed the number of groups
        lemma_prefix_parts(size, counts, n);
        assert(counts.take(n) == counts);
        let cs = clipped_size(size, counts);
        let left = leftover(size, counts);
        let rs = rem_sum(size, counts, n);
        let p = rem_positive(size, counts, n);
        assert(rs == t * left) by (nonlinear_arith)
            requires
                quota_sum(size, counts, n) * t + rs == cs * t,
                left == cs - quota_sum(size, counts, n),
        ;
        assert(p * (t - 1) <= p * t) by (nonlinear_arith)
            requires
                p >= 0,
        ;
        assert((left - p) * t <= 0) by (nonlinear_arith)
            requires
                rs == t * left,
                rs <= p * (t - 1),
                p * (t - 1) <= p * t,
        ;
        assert(left <= p) by (nonlinear_arith)
            requires
                (left - p) * t <= 0,
                t > 0,
        ;
        assert(left >= 0) by (nonlinear_arith)
            requires
                quota_sum(size, counts, n) * t + rs == cs * t,
                left == cs - quota_sum(size, counts, n),
                rs >= 0,
                t > 0,
        ;
        lemma_topped_exactly(size, counts, left);
        lemma_share_sum(size, counts, alloc, n);
        assert(alloc.take(n) == alloc);
    }
}

proof fn lemma_share_sum(size: int, counts: Seq<usize>, alloc: Seq<usize>, k: int)
    requires
        alloc.len() == counts.len(),
        0 <= k <= counts.len(),
        forall|i: int| 0 <= i < counts.len() ==> #[trigger] alloc[i] == hamilton_share(size, counts, i),
    ensures
        sum_usize(alloc.take(k)) == quota_sum(size, counts, k) + topped_count(
            size,
            counts,
            leftover(size, counts),
            k,
        ),
    decreases k,
{
    if k > 0 {
        lemma_share_sum(size, counts, alloc, k - 1);
        assert(alloc.take(k).drop_last() == alloc.take(k - 1));
    }
}

proof fn lemma_sum_zero(alloc: Seq<usize>)
    requires
        forall|i: int| 0 <= i < alloc.len() ==> alloc[i] == 0,
    ensures
        sum_usize(alloc) == 0,
    decreases alloc.len(),
{
    if alloc.len() > 0 {
        lemma_sum_zero(alloc.drop_last());
    }
}

proof fn lemma_total_nonneg(c: Seq<usize>)
    ensures
        total(c) >= 0,
    decreases c.len(),
{
    if c.len() > 0 {
        lemma_total_nonneg(c.drop_last());
    }
}

} // verus!
