//! Seeded, capped, stratified sampling.
//!
//! A precision estimate is only reusable if the sample can be redrawn
//! exactly, and only representative if no single repository or author floods
//! a stratum. [`draw`] shuffles each stratum with a seed-derived SplitMix64
//! stream, walks it greedily under the per-repo and per-author cap, and takes
//! the first `k` survivors, where `k` comes from [`allocate`].

use vstd::prelude::*;
use vstd::bytes::{spec_u64_from_le_bytes, spec_u64_to_le_bytes, u64_from_le_bytes, u64_to_le_bytes};
use vstd::utf8::encode_utf8;
use crate::digest::{blake3_digest, blake3_hash};
use crate::eval::records::{stratum_at, stratum_index, stratum_label, Stratum, STRATUM_COUNT};
use crate::eval::rng::{seeded_shuffle, shuffled};
use crate::eval::order::{lemma_sort_bounds, sort_by_key, sort_by_keys};
use crate::text::chars_of;
use crate::eval::water::{
    above, fills_to_level, is_water_filling, keep, lemma_above_bounds, lemma_keep_above,
    lemma_keep_count, lemma_rank_of_above, lemma_sum_at_most_zero, lemma_total_split, level_share,
    rank_above, sat_count, sat_sum, sum_above, sum_at_most, total, lemma_water_filling_laws,
};

verus! {

/// One commit eligible for the sample.
#[derive(Clone, Debug)]
pub struct Candidate {
    /// Commit SHA; ties are broken by it so input order never matters.
    pub sha: String,
    /// Repository.
    pub repo: String,
    /// Author identity the cap applies to.
    pub author: String,
    /// Stratum of the commit's verdict.
    pub stratum: Stratum,
}

/// Parameters of one draw.
#[derive(Clone, Copy, Debug)]
pub struct DrawParams {
    /// Total sample size requested.
    pub size: usize,
    /// Maximum commits per repo and per author within a stratum.
    pub cap: usize,
    /// RNG seed.
    pub seed: u64,
}

/// Outcome of [`draw`].
///
/// `population` and `sampled` are indexed by stratum position in report
/// order (see [`Stratum::index`]).
#[derive(Clone, Debug, Default)]
pub struct Draw {
    /// Indices into the candidate slice, grouped by stratum in report
    /// order, each group in draw order.
    pub selected: Vec<usize>,
    /// Candidates per stratum.
    pub population: Vec<usize>,
    /// Sampled commits per stratum.
    pub sampled: Vec<usize>,
}

/// Bytes hashed to seed one stratum's shuffle: the seed in little-endian
/// order, then the stratum's label.
pub open spec fn stratum_seed_material(seed: u64, stratum: Stratum) -> Seq<u8> {
    spec_u64_to_le_bytes(seed) + encode_utf8(stratum_label(stratum))
}

/// Seed of one stratum's shuffle: the first eight bytes of the BLAKE3
/// digest of its material, read little-endian.
pub open spec fn stratum_seed_of(seed: u64, stratum: Stratum) -> u64 {
    spec_u64_from_le_bytes(blake3_digest(stratum_seed_material(seed, stratum)).take(8))
}

/// First eight bytes of a digest, read little-endian.
pub(crate) fn digest_prefix_u64(digest: &Vec<u8>) -> (r: u64)
    requires
        digest@.len() >= 8,
    ensures
        r == spec_u64_from_le_bytes(digest@.take(8)),
{
    let mut first: Vec<u8> = Vec::new();
    let mut i: usize = 0;
    while i < 8
        invariant
            i <= 8,
            digest@.len() >= 8,
            first@ == digest@.take(i as int),
        decreases 8 - i,
    {
        assert(digest@.take(i as int + 1) == digest@.take(i as int).push(digest@[i as int]));
        first.push(digest[i]);
        i = i + 1;
    }
    u64_from_le_bytes(first.as_slice())
}

/// Appends the bytes of `s` to `data`.
pub(crate) fn push_str_bytes(data: &mut Vec<u8>, s: &str)
    ensures
        final(data)@ == old(data)@ + encode_utf8(s@),
{
    let b = s.as_bytes();
    let ghost start = data@;
    let mut i: usize = 0;
    while i < b.len()
        invariant
            i <= b@.len(),
            b@ == encode_utf8(s@),
            data@ == start + b@.take(i as int),
        decreases b.len() - i,
    {
        assert(b@.take(i as int + 1) == b@.take(i as int).push(b@[i as int]));
        data.push(b[i]);
        i = i + 1;
    }
    assert(b@.take(b@.len() as int) == b@);
}

/// Seed of one stratum's shuffle, derived from the draw seed.
fn stratum_seed(seed: u64, stratum: Stratum) -> (r: u64)
    ensures
        r == stratum_seed_of(seed, stratum),
{
    let mut data = u64_to_le_bytes(seed);
    push_str_bytes(&mut data, stratum.as_str());
    let digest = blake3_hash(data.as_slice());
    digest_prefix_u64(&digest)
}

/// Positions (increasing) of the candidates in `stratum`.
pub open spec fn members(cands: Seq<Candidate>, stratum: Stratum) -> Seq<usize>
    decreases cands.len(),
{
    if cands.len() == 0 {
        Seq::empty()
    } else {
        let rest = members(cands.drop_last(), stratum);
        if cands.last().stratum == stratum {
            rest.push((cands.len() - 1) as usize)
        } else {
            rest
        }
    }
}

/// The SHAs of the candidates, as character sequences.
pub open spec fn sha_keys(cands: Seq<Candidate>) -> Seq<Seq<char>> {
    Seq::new(cands.len(), |i: int| cands[i].sha@)
}

/// Entries of `walk` whose candidate is in repository `repo`.
pub open spec fn repo_count(cands: Seq<Candidate>, walk: Seq<usize>, repo: Seq<char>) -> int
    decreases walk.len(),
{
    if walk.len() == 0 {
        0
    } else {
        repo_count(cands, walk.drop_last(), repo) + if cands[walk.last() as int].repo@ == repo {
            1int
        } else {
            0
        }
    }
}

/// Entries of `walk` whose candidate has author `author`.
pub open spec fn author_count(cands: Seq<Candidate>, walk: Seq<usize>, author: Seq<char>) -> int
    decreases walk.len(),
{
    if walk.len() == 0 {
        0
    } else {
        author_count(cands, walk.drop_last(), author) + if cands[walk.last() as int].author@
            == author {
            1int
        } else {
            0
        }
    }
}

/// The greedy walk over `order` under the cap: a candidate is taken when
/// fewer than `cap` earlier taken ones share its repository and fewer than
/// `cap` share its author.
pub open spec fn capped_walk(cands: Seq<Candidate>, order: Seq<usize>, cap: usize) -> Seq<usize>
    decreases order.len(),
{
    if order.len() == 0 {
        Seq::empty()
    } else {
        let walk = capped_walk(cands, order.drop_last(), cap);
        let c = cands[order.last() as int];
        if repo_count(cands, walk, c.repo@) < cap && author_count(cands, walk, c.author@) < cap {
            walk.push(order.last())
        } else {
            walk
        }
    }
}

/// The capped walk of one stratum: its members sorted by SHA, shuffled
/// with the stratum's seed, then walked under the cap.
pub open spec fn stratum_walk(cands: Seq<Candidate>, params: DrawParams, stratum: Stratum) -> Seq<
    usize,
> {
    capped_walk(
        cands,
        shuffled(sort_by_key(sha_keys(cands), members(cands, stratum)), stratum_seed_of(params.seed, stratum)),
        params.cap,
    )
}

/// Walk lengths of all strata, in report order: what each can contribute.
pub open spec fn walk_lengths(cands: Seq<Candidate>, params: DrawParams) -> Seq<usize> {
    Seq::new(STRATUM_COUNT as nat, |k: int| stratum_walk(cands, params, stratum_at(k)).len() as usize)
}

/// The first `alloc[k]` entries of each of the first `k` strata's walks.
pub open spec fn take_walks(cands: Seq<Candidate>, params: DrawParams, alloc: Seq<usize>, k: int) -> Seq<
    usize,
>
    decreases k,
{
    if k <= 0 {
        Seq::empty()
    } else {
        take_walks(cands, params, alloc, k - 1) + stratum_walk(cands, params, stratum_at(k - 1)).take(
            alloc[k - 1] as int,
        )
    }
}

/// Positions of the candidates in `stratum`, in order.
fn collect_members(candidates: &[Candidate], stratum: Stratum) -> (m: Vec<usize>)
    ensures
        m@ == members(candidates@, stratum),
{
    let mut m: Vec<usize> = Vec::new();
    let mut i: usize = 0;
    while i < candidates.len()
        invariant
            i <= candidates.len(),
            m@ == members(candidates@.take(i as int), stratum),
        decreases candidates.len() - i,
    {
        assert(candidates@.take(i as int + 1).drop_last() == candidates@.take(i as int));
        if candidates[i].stratum == stratum {
            m.push(i);
        }
        i = i + 1;
    }
    assert(candidates@.take(candidates.len() as int) == candidates@);
    m
}

/// Entries of `walk` in repository `repo` (or with author `author`).
fn count_walk(candidates: &[Candidate], walk: &Vec<usize>, key: &String, by_repo: bool) -> (n: usize)
    requires
        forall|p: int| 0 <= p < walk.len() ==> #[trigger] walk[p] < candidates.len(),
    ensures
        by_repo ==> n == repo_count(candidates@, walk@, key@),
        !by_repo ==> n == author_count(candidates@, walk@, key@),
        n <= walk.len(),
{
    let mut n: usize = 0;
    let mut i: usize = 0;
    while i < walk.len()
        invariant
            forall|p: int| 0 <= p < walk.len() ==> #[trigger] walk[p] < candidates.len(),
            i <= walk.len(),
            n <= i,
            by_repo ==> n == repo_count(candidates@, walk@.take(i as int), key@),
            !by_repo ==> n == author_count(candidates@, walk@.take(i as int), key@),
        decreases walk.len() - i,
    {
        assert(walk@.take(i as int + 1).drop_last() == walk@.take(i as int));
        let c = &candidates[walk[i]];
        let same = if by_repo {
            c.repo == *key
        } else {
            c.author == *key
        };
        if same {
            n = n + 1;
        }
        i = i + 1;
    }
    assert(walk@.take(walk.len() as int) == walk@);
    n
}

/// The greedy capped walk over `order`.
fn walk_under_cap(candidates: &[Candidate], order: &Vec<usize>, cap: usize) -> (walk: Vec<usize>)
    requires
        forall|p: int| 0 <= p < order.len() ==> #[trigger] order[p] < candidates.len(),
    ensures
        walk@ == capped_walk(candidates@, order@, cap),
        forall|p: int| 0 <= p < walk.len() ==> #[trigger] walk[p] < candidates.len(),
        walk.len() <= order.len(),
{
    let mut walk: Vec<usize> = Vec::new();
    let mut i: usize = 0;
    while i < order.len()
        invariant
            forall|p: int| 0 <= p < order.len() ==> #[trigger] order[p] < candidates.len(),
            i <= order.len(),
            walk@ == capped_walk(candidates@, order@.take(i as int), cap),
            forall|p: int| 0 <= p < walk.len() ==> #[trigger] walk[p] < candidates.len(),
            walk.len() <= i,
        decreases order.len() - i,
    {
        assert(order@.take(i as int + 1).drop_last() == order@.take(i as int));
        let x = order[i];
        let c = &candidates[x];
        let r = count_walk(candidates, &walk, &c.repo, true);
        let a = count_walk(candidates, &walk, &c.author, false);
        if r < cap && a < cap {
            walk.push(x);
        }
        i = i + 1;
    }
    assert(order@.take(order.len() as int) == order@);
    walk
}

/// Equal allocation of `size` across strata, capped by each one's capacity.
///
/// Equal allocation gives every stratum, including small ones, enough labels
/// for a usable interval; a stratum smaller than its share passes the rest
/// on rather than shrinking the sample. Strata whose capacity is at most the
/// fair share are filled completely and removed; the rest split what remains
/// evenly, the remainder going to the earliest strata.
pub fn allocate(size: usize, capacity: &[usize]) -> (alloc: Vec<usize>)
    ensures
        is_water_filling(size as int, capacity@, alloc@),
{
    let n = capacity.len();
    let ghost cap = capacity@;
    let mut alloc: Vec<usize> = Vec::new();
    let mut active: Vec<usize> = Vec::new();
    let mut i: usize = 0;
    while i < n
        invariant
            n == cap.len(),
            cap == capacity@,
            i <= n,
            alloc.len() == i,
            forall|j: int| 0 <= j < i ==> alloc@[j] == 0,
            active@ == above(cap.take(i as int), 0),
        decreases n - i,
    {
        assert(cap.take(i as int + 1).drop_last() == cap.take(i as int));
        alloc.push(0);
        if capacity[i] > 0 {
            active.push(i);
        }
        i = i + 1;
    }
    proof {
        assert(cap.take(n as int) == cap);
        lemma_sum_at_most_zero(cap);
    }
    let ghost mut lo: int = 0;
    let mut remaining = size;
    loop
        invariant_except_break
            n == cap.len(),
            cap == capacity@,
            alloc.len() == n,
            0 <= lo,
            active@ == above(cap, lo),
            remaining as int == size as int - sum_at_most(cap, lo),
            remaining as int >= active.len() as int * lo,
            forall|j: int|
                0 <= j < n ==> #[trigger] alloc@[j] == if cap[j] <= lo {
                    cap[j]
                } else {
                    0
                },
        ensures
            is_water_filling(size as int, capacity@, alloc@),
        decreases active.len(),
    {
        proof {
            lemma_above_bounds(cap, lo);
            lemma_total_split(cap, lo);
        }
        if remaining == 0 || active.len() == 0 {
            proof {
                if active.len() == 0 {
                    assert forall|j: int| 0 <= j < n implies cap[j] <= lo by {
                        if cap[j] > lo {
                            assert(above(cap, lo).contains(j as usize));
                        }
                    }
                    assert(alloc@ == cap);
                    assert(sum_above(cap, lo) == 0) by {
                        lemma_sum_above_empty(cap, lo);
                    }
                    assert(total(cap) <= size);
                } else {
                    assert(lo == 0) by (nonlinear_arith)
                        requires
                            remaining == 0,
                            remaining as int >= active.len() as int * lo,
                            active.len() > 0,
                            lo >= 0,
                    ;
                    assert(fills_to_level(size as int, cap, alloc@, 0, 0));
                    assert(above(cap, lo).len() * (lo + 1) == above(cap, lo).len()) by (nonlinear_arith)
                        requires
                            lo == 0,
                    ;
                    assert(total(cap) > size);
                }
            }
            break;
        }
        let len = active.len();
        let share = remaining / len;
        proof {
            assert(share as int * len as int <= remaining as int) by (nonlinear_arith)
                requires
                    share == remaining / len,
                    len > 0,
            ;
            assert(share as int >= lo) by (nonlinear_arith)
                requires
                    share == remaining / len,
                    len > 0,
                    remaining as int >= len as int * lo,
                    lo >= 0,
            ;
        }
        let mut next: Vec<usize> = Vec::new();
        let mut rem = remaining;
        let mut k: usize = 0;
        while k < len
            invariant
                n == cap.len(),
                cap == capacity@,
                alloc.len() == n,
                len == active.len(),
                active@ == above(cap, lo),
                0 <= lo <= share,
                k <= len,
                next@ == keep(active@.take(k as int), cap, share as int),
                rem as int == remaining as int - sat_sum(active@.take(k as int), cap, share as int),
                rem as int >= (len as int - sat_count(active@.take(k as int), cap, share as int))
                    * share as int,
                0 <= sat_count(active@.take(k as int), cap, share as int) <= k,
                forall|p: int| 0 <= p < len ==> #[trigger] active@[p] < n && cap[active@[p] as int] > lo,
                forall|j: int|
                    0 <= j < n ==> #[trigger] alloc@[j] == if cap[j] <= lo {
                        cap[j]
                    } else if active@.take(k as int).contains(j as usize) && cap[j] <= share {
                        cap[j]
                    } else {
                        0
                    },
            decreases len - k,
        {
            let j = active[k];
            let ghost before = active@.take(k as int);
            proof {
                assert(active@.take(k as int + 1).drop_last() == before);
                assert(active@.take(k as int + 1) == before.push(j));
            }
            if capacity[j] <= share {
                let ghost sc = sat_count(before, cap, share as int);
                proof {
                    assert((len as int - sc) * share as int - share as int == (len as int - sc - 1)
                        * share as int) by (nonlinear_arith);
                    assert((len as int - sc - 1) * share as int >= 0) by (nonlinear_arith)
                        requires
                            sc < len,
                    ;
                }
                alloc.set(j, capacity[j]);
                rem = rem - capacity[j];
            } else {
                next.push(j);
            }
            k = k + 1;
        }
        proof {
            assert(active@.take(len as int) == active@);
            lemma_keep_count(active@, cap, share as int);
            lemma_keep_above(cap, lo, share as int);
        }
        if next.len() == len {
            let extra = remaining % len;
            proof {
                lemma_above_bounds(cap, share as int);
                assert(sat_count(active@, cap, share as int) == 0);
                assert(sat_count(active@, cap, share as int) * share as int == 0) by (nonlinear_arith)
                    requires
                        sat_count(active@, cap, share as int) == 0,
                ;
                assert(sat_sum(active@, cap, share as int) == 0);
            }
            let mut p: usize = 0;
            while p < len
                invariant
                    n == cap.len(),
                    cap == capacity@,
                    alloc.len() == n,
                    len == active.len(),
                    active@ == above(cap, share as int),
                    p <= len,
                    forall|q: int| 0 <= q < len ==> #[trigger] active@[q] < n && cap[active@[q] as int] > share,
                    forall|q: int, r: int| 0 <= q < r < len ==> active@[q] < active@[r],
                    forall|j: int|
                        0 <= j < n ==> #[trigger] alloc@[j] == if cap[j] <= share {
                            cap[j]
                        } else if active@.take(p as int).contains(j as usize) {
                            if rank_above(cap, share as int, j) < extra {
                                (share + 1) as usize
                            } else {
                                share
                            }
                        } else {
                            0
                        },
                decreases len - p,
            {
                let j = active[p];
                proof {
                    lemma_rank_of_above(cap, share as int, p as int);
                    assert(active@.take(p as int + 1) == active@.take(p as int).push(j));
                    assert forall|q: int| 0 <= q < p implies active@[q] != j by {}
                }
                let ghost old_alloc = alloc@;
                if p < extra {
                    alloc.set(j, share + 1);
                } else {
                    alloc.set(j, share);
                }
                proof {
                    let t1 = active@.take(p as int + 1);
                    let t0 = active@.take(p as int);
                    assert(t1[p as int] == j);
                    assert(t1.contains(j));
                    assert(!t0.contains(j));
                    assert forall|i: int| 0 <= i < n && i != j implies #[trigger] t1.contains(i as usize)
                        == t0.contains(i as usize) by {
                        if t1.contains(i as usize) {
                            let q = choose|q: int| 0 <= q < t1.len() && t1[q] == i as usize;
                            assert(q < p);
                            assert(t0[q] == i as usize);
                        }
                        if t0.contains(i as usize) {
                            let q = choose|q: int| 0 <= q < t0.len() && t0[q] == i as usize;
                            assert(t1[q] == i as usize);
                        }
                    }
                }
                p = p + 1;
            }
            proof {
                assert(active@.take(len as int) == active@);
                lemma_above_bounds(cap, share as int);
                vstd::arithmetic::div_mod::lemma_fundamental_div_mod(remaining as int, len as int);
                lemma_total_split(cap, share as int);
                assert(remaining as int == share as int * len as int + extra as int) by (nonlinear_arith)
                    requires
                        remaining as int == len as int * (remaining as int / len as int) + remaining as int
                            % len as int,
                        share as int == remaining as int / len as int,
                        extra as int == remaining as int % len as int,
                ;
                assert(len as int * (share as int + 1) == share as int * len as int + len as int)
                    by (nonlinear_arith);
                assert(total(cap) > size);
                assert forall|j: int| 0 <= j < n implies #[trigger] alloc@[j] == level_share(
                    cap,
                    share as int,
                    extra as int,
                    j,
                ) by {
                    if cap[j] > share {
                        assert(active@.contains(j as usize));
                    }
                }
                assert(fills_to_level(size as int, cap, alloc@, share as int, extra as int));
            }
            break;
        }
        proof {
            lo = share as int;
        }
        active = next;
        remaining = rem;
    }
    alloc
}

/// Draw the stratified sample.
///
/// Candidates are sorted by SHA inside each stratum before the seeded
/// shuffle, so the sample depends only on the candidate set and the seed.
pub fn draw(candidates: &[Candidate], params: &DrawParams) -> (d: Draw)
    ensures
        d.population.len() == STRATUM_COUNT,
        forall|k: int|
            0 <= k < STRATUM_COUNT ==> #[trigger] d.population[k] == members(
                candidates@,
                stratum_at(k),
            ).len(),
        is_water_filling(params.size as int, walk_lengths(candidates@, *params), d.sampled@),
        d.selected@ == take_walks(candidates@, *params, d.sampled@, STRATUM_COUNT as int),
{
    let ghost cands = candidates@;
    let n = candidates.len();
    let mut shas: Vec<Vec<char>> = Vec::new();
    let mut i: usize = 0;
    while i < n
        invariant
            n == candidates.len(),
            i <= n,
            shas.len() == i,
            forall|q: int| 0 <= q < i ==> #[trigger] shas[q]@ == candidates@[q].sha@,
        decreases n - i,
    {
        shas.push(chars_of(candidates[i].sha.as_str()));
        i = i + 1;
    }
    let mut walks: Vec<Vec<usize>> = Vec::new();
    let mut population: Vec<usize> = Vec::new();
    let mut capacity: Vec<usize> = Vec::new();
    let mut k: usize = 0;
    while k < STRATUM_COUNT
        invariant
            cands == candidates@,
            n == candidates.len(),
            shas.len() == n,
            forall|q: int| 0 <= q < n ==> #[trigger] shas[q]@ == candidates@[q].sha@,
            forall|q: int| 0 <= q < n ==> #[trigger] shas[q]@ == sha_keys(cands)[q],
            k <= STRATUM_COUNT,
            walks.len() == k,
            population.len() == k,
            capacity.len() == k,
            forall|q: int|
                0 <= q < k ==> #[trigger] walks[q]@ == stratum_walk(cands, *params, stratum_at(q)),
            forall|q: int| 0 <= q < k ==> #[trigger] capacity[q] == walks[q].len(),
            forall|q: int|
                0 <= q < k ==> #[trigger] population[q] == members(cands, stratum_at(q)).len(),
        decreases STRATUM_COUNT - k,
    {
        let stratum = Stratum::from_index(k);
        let m = collect_members(candidates, stratum);
        proof {
            lemma_members_bounds(cands, stratum);
        }
        population.push(m.len());
        let mut order = sort_by_keys(&shas, Ghost(sha_keys(cands)), &m);
        let seed = stratum_seed(params.seed, stratum);
        let ghost sorted = order@;
        seeded_shuffle(order.as_mut_slice(), seed);
        proof {
            lemma_sort_bounds(sha_keys(cands), m@);
            crate::eval::rng::lemma_shuffle_permutes(sorted, seed);
            assert forall|p: int| 0 <= p < order.len() implies #[trigger] order[p] < n by {
                assert(order@.to_multiset().count(order@[p]) > 0) by {
                    broadcast use vstd::seq_lib::to_multiset_contains;
                    assert(order@.contains(order@[p]));
                }
                assert(sorted.to_multiset().count(order@[p]) > 0);
                broadcast use vstd::seq_lib::to_multiset_contains;
                let q = choose|q: int| 0 <= q < sorted.len() && sorted[q] == order@[p];
            }
        }
        let walk = walk_under_cap(candidates, &order, params.cap);
        capacity.push(walk.len());
        walks.push(walk);
        k = k + 1;
    }
    let alloc = allocate(params.size, capacity.as_slice());
    proof {
        assert(capacity@ =~= walk_lengths(cands, *params));
        lemma_water_filling_laws(params.size as int, capacity@, alloc@);
    }
    let mut selected: Vec<usize> = Vec::new();
    let mut k: usize = 0;
    while k < STRATUM_COUNT
        invariant
            cands == candidates@,
            walks.len() == STRATUM_COUNT,
            alloc.len() == STRATUM_COUNT,
            capacity.len() == STRATUM_COUNT,
            forall|q: int| 0 <= q < STRATUM_COUNT ==> #[trigger] capacity[q] == walks[q].len(),
            forall|q: int| 0 <= q < STRATUM_COUNT ==> #[trigger] alloc[q] <= capacity[q],
            forall|q: int|
                0 <= q < STRATUM_COUNT ==> #[trigger] walks[q]@ == stratum_walk(
                    cands,
                    *params,
                    stratum_at(q),
                ),
            k <= STRATUM_COUNT,
            selected@ == take_walks(cands, *params, alloc@, k as int),
        decreases STRATUM_COUNT - k,
    {
        let take = alloc[k];
        let mut p: usize = 0;
        while p < take
            invariant
                walks.len() == STRATUM_COUNT,
                k < STRATUM_COUNT,
                take <= walks[k as int].len(),
                p <= take,
                selected@ == take_walks(cands, *params, alloc@, k as int) + walks[k as int]@.take(
                    p as int,
                ),
            decreases take - p,
        {
            proof {
                assert(walks[k as int]@.take(p as int + 1) == walks[k as int]@.take(p as int).push(
                    walks[k as int]@[p as int],
                ));
            }
            selected.push(walks[k][p]);
            p = p + 1;
        }
        k = k + 1;
    }
    Draw { selected, population, sampled: alloc }
}

proof fn lemma_members_bounds(cands: Seq<Candidate>, stratum: Stratum)
    ensures
        forall|p: int|
            0 <= p < members(cands, stratum).len() ==> #[trigger] members(cands, stratum)[p]
                < cands.len(),
        members(cands, stratum).len() <= cands.len(),
    decreases cands.len(),
{
    if cands.len() > 0 {
        lemma_members_bounds(cands.drop_last(), stratum);
    }
}

pub proof fn lemma_sum_above_empty(cap: Seq<usize>, t: int)
    requires
        forall|j: int| 0 <= j < cap.len() ==> cap[j] <= t,
    ensures
        sum_above(cap, t) == 0,
    decreases cap.len(),
{
    if cap.len() > 0 {
        lemma_sum_above_empty(cap.drop_last(), t);
    }
}

} // verus!
