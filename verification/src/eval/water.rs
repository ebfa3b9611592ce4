//! Water-filling allocation of a sample across strata.
//!
//! Every stratum whose capacity lies at or below a level `s` is filled
//! completely; every other stratum gets `s`, and the first `extra` of them
//! (in stratum order) one more, so that the total is the requested size.

use vstd::prelude::*;

verus! {

/// Positions (increasing) of the strata whose capacity exceeds `t`.
pub open spec fn above(cap: Seq<usize>, t: int) -> Seq<usize>
    decreases cap.len(),
{
    if cap.len() == 0 {
        Seq::empty()
    } else {
        let rest = above(cap.drop_last(), t);
        if cap.last() > t {
            rest.push((cap.len() - 1) as usize)
        } else {
            rest
        }
    }
}

/// Sum of the capacities that are at most `t`.
pub open spec fn sum_at_most(cap: Seq<usize>, t: int) -> int
    decreases cap.len(),
{
    if cap.len() == 0 {
        0
    } else {
        sum_at_most(cap.drop_last(), t) + if cap.last() <= t {
            cap.last() as int
        } else {
            0
        }
    }
}

/// Sum of all capacities.
pub open spec fn total(cap: Seq<usize>) -> int
    decreases cap.len(),
{
    if cap.len() == 0 {
        0
    } else {
        total(cap.drop_last()) + cap.last()
    }
}

/// Number of strata before position `i` whose capacity exceeds `t`.
pub open spec fn rank_above(cap: Seq<usize>, t: int, i: int) -> int {
    above(cap.take(i), t).len() as int
}

/// Share of stratum `i` at level `s` with `extra` one-unit top-ups.
pub open spec fn level_share(cap: Seq<usize>, s: int, extra: int, i: int) -> int {
    if cap[i] <= s {
        cap[i] as int
    } else if rank_above(cap, s, i) < extra {
        s + 1
    } else {
        s
    }
}

/// `alloc` fills the strata to level `s`: those at or below `s` completely,
/// the others with `s`, the first `extra` of them with `s + 1`; `extra` is
/// smaller than the number of strata above `s`, and the total is `size`.
pub open spec fn fills_to_level(size: int, cap: Seq<usize>, alloc: Seq<usize>, s: int, extra: int) -> bool {
    &&& 0 <= s
    &&& 0 <= extra < above(cap, s).len()
    &&& sum_at_most(cap, s) + s * above(cap, s).len() + extra == size
    &&& forall|i: int| 0 <= i < cap.len() ==> #[trigger] alloc[i] == level_share(cap, s, extra, i)
}

/// `alloc` is the water-filling allocation of `size` over `cap`: every
/// stratum is filled when the capacities do not exceed `size`; otherwise
/// `alloc` fills the strata to some level (see [`fills_to_level`]).
pub open spec fn is_water_filling(size: int, cap: Seq<usize>, alloc: Seq<usize>) -> bool {
    &&& alloc.len() == cap.len()
    &&& total(cap) <= size ==> alloc == cap
    &&& total(cap) > size ==> exists|s: int, extra: int| #[trigger] fills_to_level(size, cap, alloc, s, extra)
}

/// Sum of a sequence of counts.
pub open spec fn sum_usize(s: Seq<usize>) -> int
    decreases s.len(),
{
    if s.len() == 0 {
        0
    } else {
        sum_usize(s.drop_last()) + s.last()
    }
}

pub proof fn lemma_above_bounds(cap: Seq<usize>, t: int)
    requires
        cap.len() <= usize::MAX,
    ensures
        above(cap, t).len() <= cap.len(),
        forall|p: int| 0 <= p < above(cap, t).len() ==> #[trigger] above(cap, t)[p] < cap.len()
            && cap[above(cap, t)[p] as int] > t,
        forall|p: int, q: int| 0 <= p < q < above(cap, t).len() ==> above(cap, t)[p] < above(cap, t)[q],
        forall|i: usize| i < cap.len() && cap[i as int] > t ==> above(cap, t).contains(i),
    decreases cap.len(),
{
    if cap.len() > 0 {
        let c = cap.drop_last();
        lemma_above_bounds(c, t);
        let a = above(c, t);
        if cap.last() > t {
            let last = (cap.len() - 1) as usize;
            assert(above(cap, t) == a.push(last));
            assert forall|p: int| 0 <= p < above(cap, t).len() implies #[trigger] above(cap, t)[p] < cap.len()
                && cap[above(cap, t)[p] as int] > t by {
                if p < a.len() {
                    assert(above(cap, t)[p] == a[p]);
                    assert(c[a[p] as int] == cap[a[p] as int]);
                }
            }
        } else {
            assert forall|p: int| 0 <= p < above(cap, t).len() implies #[trigger] above(cap, t)[p] < cap.len()
                && cap[above(cap, t)[p] as int] > t by {
                assert(c[a[p] as int] == cap[a[p] as int]);
            }
        }
        assert forall|i: usize| i < cap.len() && cap[i as int] > t implies above(cap, t).contains(i) by {
            if i < cap.len() - 1 {
                assert(c[i as int] == cap[i as int]);
                assert(a.contains(i));
                let p = choose|p: int| 0 <= p < a.len() && a[p] == i;
                if cap.last() > t {
                    assert(above(cap, t) == a.push((cap.len() - 1) as usize));
                    assert(above(cap, t)[p] == a[p]);
                } else {
                    assert(above(cap, t) == a);
                }
            } else {
                assert(above(cap, t) == a.push((cap.len() - 1) as usize));
                assert(above(cap, t)[a.len() as int] == i);
            }
        }
    }
}

pub proof fn lemma_sum_at_most_zero(cap: Seq<usize>)
    ensures
        sum_at_most(cap, 0) == 0,
    decreases cap.len(),
{
    if cap.len() > 0 {
        lemma_sum_at_most_zero(cap.drop_last());
    }
}

/// Sum of the capacities that exceed `t`.
pub open spec fn sum_above(cap: Seq<usize>, t: int) -> int
    decreases cap.len(),
{
    if cap.len() == 0 {
        0
    } else {
        sum_above(cap.drop_last(), t) + if cap.last() > t {
            cap.last() as int
        } else {
            0
        }
    }
}

/// The positions of `idx` whose capacity exceeds `t`, in order.
pub open spec fn keep(idx: Seq<usize>, cap: Seq<usize>, t: int) -> Seq<usize>
    decreases idx.len(),
{
    if idx.len() == 0 {
        Seq::empty()
    } else {
        let rest = keep(idx.drop_last(), cap, t);
        if cap[idx.last() as int] > t {
            rest.push(idx.last())
        } else {
            rest
        }
    }
}

/// Sum of the capacities at positions of `idx` that are at most `t`.
pub open spec fn sat_sum(idx: Seq<usize>, cap: Seq<usize>, t: int) -> int
    decreases idx.len(),
{
    if idx.len() == 0 {
        0
    } else {
        sat_sum(idx.drop_last(), cap, t) + if cap[idx.last() as int] <= t {
            cap[idx.last() as int] as int
        } else {
            0
        }
    }
}

/// Number of positions of `idx` whose capacity is at most `t`.
pub open spec fn sat_count(idx: Seq<usize>, cap: Seq<usize>, t: int) -> int
    decreases idx.len(),
{
    if idx.len() == 0 {
        0
    } else {
        sat_count(idx.drop_last(), cap, t) + if cap[idx.last() as int] <= t {
            1int
        } else {
            0
        }
    }
}

pub proof fn lemma_total_split(cap: Seq<usize>, t: int)
    requires
        t >= 0,
    ensures
        total(cap) == sum_at_most(cap, t) + sum_above(cap, t),
        sum_above(cap, t) >= above(cap, t).len() * (t + 1),
        sum_at_most(cap, t) >= 0,
    decreases cap.len(),
{
    if cap.len() > 0 {
        lemma_total_split(cap.drop_last(), t);
        let n = above(cap.drop_last(), t).len();
        if cap.last() > t {
            assert((n + 1) * (t + 1) == n * (t + 1) + (t + 1)) by (nonlinear_arith);
        }
    }
}

pub proof fn lemma_keep_above(cap: Seq<usize>, lo: int, hi: int)
    requires
        lo <= hi,
        cap.len() <= usize::MAX,
    ensures
        keep(above(cap, lo), cap, hi) == above(cap, hi),
        sum_at_most(cap, hi) == sum_at_most(cap, lo) + sat_sum(above(cap, lo), cap, hi),
    decreases cap.len(),
{
    if cap.len() > 0 {
        let c = cap.drop_last();
        lemma_keep_above(c, lo, hi);
        lemma_above_bounds(c, lo);
        lemma_keep_same_prefix(above(c, lo), c, cap, hi);
        if cap.last() > lo {
            let a = above(c, lo);
            let last = (cap.len() - 1) as usize;
            assert(above(cap, lo) == a.push(last));
            assert(above(cap, lo).drop_last() == a);
        }
    }
}

/// `keep` and `sat_sum` only read capacities at the listed positions.
pub proof fn lemma_keep_same_prefix(idx: Seq<usize>, c: Seq<usize>, cap: Seq<usize>, t: int)
    requires
        c.len() <= cap.len(),
        forall|i: int| 0 <= i < c.len() ==> c[i] == cap[i],
        forall|p: int| 0 <= p < idx.len() ==> idx[p] < c.len(),
    ensures
        keep(idx, c, t) == keep(idx, cap, t),
        sat_sum(idx, c, t) == sat_sum(idx, cap, t),
        sat_count(idx, c, t) == sat_count(idx, cap, t),
    decreases idx.len(),
{
    if idx.len() > 0 {
        lemma_keep_same_prefix(idx.drop_last(), c, cap, t);
    }
}

pub proof fn lemma_keep_count(idx: Seq<usize>, cap: Seq<usize>, t: int)
    requires
        t >= 0,
    ensures
        keep(idx, cap, t).len() + sat_count(idx, cap, t) == idx.len(),
        0 <= sat_sum(idx, cap, t) <= sat_count(idx, cap, t) * t,
        sat_count(idx, cap, t) >= 0,
        sat_count(idx, cap, t) == 0 ==> keep(idx, cap, t) == idx,
    decreases idx.len(),
{
    if idx.len() > 0 {
        lemma_keep_count(idx.drop_last(), cap, t);
        let k = sat_count(idx.drop_last(), cap, t);
        assert((k + 1) * t == k * t + t) by (nonlinear_arith);
        if sat_count(idx, cap, t) == 0 {
            assert(idx == idx.drop_last().push(idx.last()));
        }
    }
}

/// The strata above `t` among the first `k` positions form a prefix of all
/// strata above `t`; the rest lie at positions `>= k`.
pub proof fn lemma_above_prefix(cap: Seq<usize>, t: int, k: int)
    requires
        0 <= k <= cap.len(),
        cap.len() <= usize::MAX,
    ensures
        above(cap.take(k), t).len() <= above(cap, t).len(),
        above(cap.take(k), t) == above(cap, t).take(above(cap.take(k), t).len() as int),
        forall|p: int| above(cap.take(k), t).len() <= p < above(cap, t).len() ==> above(cap, t)[p] >= k,
    decreases cap.len(),
{
    if k == cap.len() {
        assert(cap.take(k) == cap);
    } else {
        let c = cap.drop_last();
        assert(cap.take(k) == c.take(k));
        lemma_above_prefix(c, t, k);
        let a = above(c, t);
        let m = above(cap.take(k), t).len() as int;
        if cap.last() > t {
            let last = (cap.len() - 1) as usize;
            assert(above(cap, t) == a.push(last));
            assert(above(cap, t).take(m) == a.take(m));
            assert forall|p: int| m <= p < above(cap, t).len() implies above(cap, t)[p] >= k by {
                if p < a.len() {
                    assert(above(cap, t)[p] == a[p]);
                }
            }
        }
    }
}

pub proof fn lemma_rank_of_above(cap: Seq<usize>, t: int, p: int)
    requires
        0 <= p < above(cap, t).len(),
        cap.len() <= usize::MAX,
    ensures
        rank_above(cap, t, above(cap, t)[p] as int) == p,
{
    let a = above(cap, t);
    let k = a[p] as int;
    lemma_above_bounds(cap, t);
    lemma_above_prefix(cap, t, k);
    lemma_above_bounds(cap.take(k), t);
    let m = above(cap.take(k), t).len() as int;
    if m > p {
        assert(above(cap.take(k), t)[p] == a[p]);
        assert(false);
    }
    if m < p {
        assert(a[m] < a[p]);
        assert(false);
    }
}

/// Smaller of two integers.
pub open spec fn min_int(a: int, b: int) -> int {
    if a <= b {
        a
    } else {
        b
    }
}

proof fn lemma_prefix_sum_step(a: Seq<usize>, k: int)
    requires
        0 <= k < a.len(),
    ensures
        sum_usize(a.take(k + 1)) == sum_usize(a.take(k)) + a[k],
{
    assert(a.take(k + 1).drop_last() == a.take(k));
}

proof fn lemma_level_prefix(cap: Seq<usize>, alloc: Seq<usize>, s: int, extra: int, k: int)
    requires
        cap.len() <= usize::MAX,
        alloc.len() == cap.len(),
        0 <= s,
        0 <= extra,
        0 <= k <= cap.len(),
        forall|i: int| 0 <= i < cap.len() ==> #[trigger] alloc[i] == level_share(cap, s, extra, i),
    ensures
        sum_usize(alloc.take(k)) == sum_at_most(cap.take(k), s) + s * above(cap.take(k), s).len()
            + min_int(extra, above(cap.take(k), s).len() as int),
    decreases k,
{
    if k > 0 {
        lemma_level_prefix(cap, alloc, s, extra, k - 1);
        lemma_prefix_sum_step(alloc, k - 1);
        let c = cap.take(k);
        assert(c.drop_last() == cap.take(k - 1));
        assert(c.last() == cap[k - 1]);
        let r = above(cap.take(k - 1), s).len() as int;
        if cap[k - 1] > s {
            assert(s * (r + 1) == s * r + s) by (nonlinear_arith);
        }
    }
}

/// What every water-filling allocation satisfies: no stratum gets more than
/// its capacity, an empty stratum gets nothing, and the allocation sums to
/// `min(size, Σ capacity)`, so a small stratum passes its share on instead
/// of shrinking the sample.
pub proof fn lemma_water_filling_laws(size: int, cap: Seq<usize>, alloc: Seq<usize>)
    requires
        0 <= size,
        cap.len() <= usize::MAX,
        is_water_filling(size, cap, alloc),
    ensures
        forall|i: int| 0 <= i < cap.len() ==> #[trigger] alloc[i] <= cap[i],
        forall|i: int| 0 <= i < cap.len() && cap[i] == 0 ==> #[trigger] alloc[i] == 0,
        sum_usize(alloc) == min_int(size, total(cap)),
{
    if total(cap) <= size {
        lemma_sum_is_total(cap);
    } else {
        let (s, extra) = choose|s: int, extra: int| #[trigger] fills_to_level(size, cap, alloc, s, extra);
        assert forall|i: int| 0 <= i < cap.len() implies #[trigger] alloc[i] <= cap[i] by {
            assert(alloc[i] == level_share(cap, s, extra, i));
        }
        lemma_level_prefix(cap, alloc, s, extra, cap.len() as int);
        assert(alloc.take(cap.len() as int) == alloc);
        assert(cap.take(cap.len() as int) == cap);
    }
}

proof fn lemma_sum_is_total(cap: Seq<usize>)
    ensures
        sum_usize(cap) == total(cap),
    decreases cap.len(),
{
    if cap.len() > 0 {
        lemma_sum_is_total(cap.drop_last());
    }
}


/// Total handed out when every stratum is filled to level `s`.
pub open spec fn level_total(cap: Seq<usize>, s: int) -> int {
    sum_at_most(cap, s) + s * above(cap, s).len()
}

proof fn lemma_level_step(cap: Seq<usize>, s: int)
    requires
        0 <= s,
    ensures
        level_total(cap, s + 1) == level_total(cap, s) + above(cap, s).len(),
    decreases cap.len(),
{
    if cap.len() > 0 {
        let c = cap.drop_last();
        lemma_level_step(c, s);
        let x = cap.last() as int;
        let a0 = above(c, s).len() as int;
        let a1 = above(c, s + 1).len() as int;
        let m0 = sum_at_most(c, s);
        let m1 = sum_at_most(c, s + 1);
        assert(m1 + (s + 1) * a1 == m0 + s * a0 + a0);
        if x <= s {
            assert(above(cap, s).len() == a0);
            assert(above(cap, s + 1).len() == a1);
            assert(sum_at_most(cap, s) == m0 + x);
            assert(sum_at_most(cap, s + 1) == m1 + x);
            assert(level_total(cap, s) == m0 + x + s * a0);
            assert(level_total(cap, s + 1) == m1 + x + (s + 1) * a1);
        } else if x == s + 1 {
            assert(above(cap, s).len() == a0 + 1);
            assert(above(cap, s + 1).len() == a1);
            assert(sum_at_most(cap, s) == m0);
            assert(sum_at_most(cap, s + 1) == m1 + x);
            assert(s * (a0 + 1) == s * a0 + s) by (nonlinear_arith);
            assert(level_total(cap, s) == m0 + s * (a0 + 1));
            assert(level_total(cap, s + 1) == m1 + x + (s + 1) * a1);
        } else {
            assert(above(cap, s).len() == a0 + 1);
            assert(above(cap, s + 1).len() == a1 + 1);
            assert(sum_at_most(cap, s) == m0);
            assert(sum_at_most(cap, s + 1) == m1);
            assert(s * (a0 + 1) == s * a0 + s) by (nonlinear_arith);
            assert((s + 1) * (a1 + 1) == (s + 1) * a1 + s + 1) by (nonlinear_arith);
            assert(level_total(cap, s) == m0 + s * (a0 + 1));
            assert(level_total(cap, s + 1) == m1 + (s + 1) * (a1 + 1));
        }
    } else {
        assert(above(cap, s).len() == 0);
        assert(above(cap, s + 1).len() == 0);
        assert(level_total(cap, s) == 0);
        assert(level_total(cap, s + 1) == 0);
    }
}

proof fn lemma_level_gap(cap: Seq<usize>, s: int, t: int)
    requires
        0 <= s < t,
    ensures
        level_total(cap, t) >= level_total(cap, s) + above(cap, s).len(),
    decreases t - s,
{
    lemma_level_step(cap, s);
    if t > s + 1 {
        lemma_level_gap(cap, s + 1, t);
    }
}

/// The water-filling allocation is determined by the size and the
/// capacities: two allocations that both fill `cap` for `size` are equal.
pub proof fn lemma_water_filling_unique(size: int, cap: Seq<usize>, a1: Seq<usize>, a2: Seq<usize>)
    requires
        is_water_filling(size, cap, a1),
        is_water_filling(size, cap, a2),
    ensures
        a1 == a2,
{
    if total(cap) > size {
        let (s1, e1) = choose|s: int, extra: int| #[trigger] fills_to_level(size, cap, a1, s, extra);
        let (s2, e2) = choose|s: int, extra: int| #[trigger] fills_to_level(size, cap, a2, s, extra);
        if s1 < s2 {
            lemma_level_gap(cap, s1, s2);
        } else if s2 < s1 {
            lemma_level_gap(cap, s2, s1);
        }
        assert(s1 == s2);
        assert forall|i: int| 0 <= i < cap.len() implies a1[i] == a2[i] by {
            assert(a1[i] == level_share(cap, s1, e1, i));
            assert(a2[i] == level_share(cap, s2, e2, i));
        }
        assert(a1 =~= a2);
    }
}

} // verus!
