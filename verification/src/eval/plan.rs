//! Planning a sample: the window of commits, the merges it leaves out, each
//! commit's stratum, and the seeded capped draw over them.
//!
//! The window is the `weeks` weeks up to the newest commit timestamp. A
//! merge (two or more parents) never enters the eval and is only counted;
//! squash and rebase commits have one parent and stay in. Stratum weights,
//! dates as text, salts and the files written are left to the caller.

use vstd::prelude::*;
use crate::eval::reorder::cand_view;
use crate::eval::draw::{
    author_count, repo_count, capped_walk, draw, members, sha_keys, stratum_seed_of, stratum_walk, take_walks, walk_lengths, Candidate, Draw,
    DrawParams,
};
use crate::eval::order::{lemma_sort_bounds, sort_by_key};
use crate::eval::rng::{lemma_shuffle_permutes, shuffled};
use crate::eval::records::{band_of_bits, stratum_at, stratum_of, Stratum, STRATUM_COUNT};
use crate::eval::repredict::ResolvedVerdict;
use crate::eval::water::{is_water_filling, lemma_water_filling_laws};
use crate::text::{chars_of, string_from_chars, to_lowercase, trim, trim_chars, unicode_lowercase};

verus! {

/// Seconds in a week.
pub const WEEK_SECONDS: i128 = 604800;

/// One commit as the sampler reads it.
#[derive(Clone, Debug)]
pub struct SampleCommit {
    /// Commit SHA.
    pub sha: String,
    /// Repository.
    pub repo: String,
    /// Author e-mail.
    pub author_email: String,
    /// Commit time in seconds, `None` when it could not be read.
    pub ts: Option<i64>,
    /// Two or more parents.
    pub is_merge: bool,
}

/// Why no sample was planned.
#[derive(Clone, Debug, PartialEq, Eq)]
pub enum SampleError {
    /// The size or the cap is zero.
    ZeroSizeOrCap,
    /// No commit has a readable timestamp.
    NoCommits,
}

/// The planned sample.
#[derive(Clone, Debug)]
pub struct SamplePlan {
    /// Newest commit time.
    pub end: i64,
    /// Start of the window: `end` less `weeks` weeks.
    pub start: i128,
    /// Commits whose timestamp could not be read.
    pub bad_timestamps: usize,
    /// Positions of the commits in the window, merges left out, in order.
    pub window: Vec<usize>,
    /// Merges in the window, left out.
    pub merges_excluded: usize,
    /// The window's commits as draw candidates, in window order.
    pub candidates: Vec<Candidate>,
    /// The draw over the candidates.
    pub draw: Draw,
    /// Positions in the commit list of the drawn commits, in draw order.
    pub selected: Vec<usize>,
}

/// Newest readable timestamp among the first `n` commits.
pub open spec fn newest(commits: Seq<SampleCommit>, n: int) -> Option<i64>
    decreases n,
{
    if n <= 0 {
        None
    } else {
        let prev = newest(commits, n - 1);
        match commits[n - 1].ts {
            None => prev,
            Some(t) => match prev {
                Some(m) => if t > m {
                    Some(t)
                } else {
                    Some(m)
                },
                None => Some(t),
            },
        }
    }
}

/// Commits among the first `n` without a readable timestamp.
pub open spec fn bad_count(commits: Seq<SampleCommit>, n: int) -> nat
    decreases n,
{
    if n <= 0 {
        0
    } else {
        bad_count(commits, n - 1) + if commits[n - 1].ts is None {
            1nat
        } else {
            0nat
        }
    }
}

/// Commit `i` falls in the window starting at `start`.
pub open spec fn in_window(c: SampleCommit, start: int) -> bool {
    c.ts matches Some(t) && t >= start
}

/// Positions of the non-merge commits in the window among the first `n`.
pub open spec fn window_rows(commits: Seq<SampleCommit>, start: int, n: int) -> Seq<usize>
    decreases n,
{
    if n <= 0 {
        Seq::empty()
    } else if in_window(commits[n - 1], start) && !commits[n - 1].is_merge {
        window_rows(commits, start, n - 1).push((n - 1) as usize)
    } else {
        window_rows(commits, start, n - 1)
    }
}

/// Merges in the window among the first `n` commits.
pub open spec fn window_merges(commits: Seq<SampleCommit>, start: int, n: int) -> nat
    decreases n,
{
    if n <= 0 {
        0
    } else {
        window_merges(commits, start, n - 1) + if in_window(commits[n - 1], start) && commits[n - 1].is_merge {
            1nat
        } else {
            0nat
        }
    }
}

/// The stratum of a resolved verdict.
pub open spec fn verdict_stratum(v: ResolvedVerdict) -> Stratum {
    stratum_of(v.tier, v.category@, band_of_bits(v.confidence_bits))
}

/// What a draw over `cands` with `params` gives.
pub open spec fn drawn_from(d: Draw, cands: Seq<Candidate>, params: DrawParams) -> bool {
    &&& d.population.len() == STRATUM_COUNT
    &&& forall|k: int| 0 <= k < STRATUM_COUNT ==> #[trigger] d.population[k] == members(cands, stratum_at(k)).len()
    &&& is_water_filling(params.size as int, walk_lengths(cands, params), d.sampled@)
    &&& d.selected@ == take_walks(cands, params, d.sampled@, STRATUM_COUNT as int)
}

proof fn lemma_members_below(cands: Seq<Candidate>, stratum: Stratum)
    ensures
        forall|p: int| 0 <= p < members(cands, stratum).len() ==> #[trigger] members(cands, stratum)[p] < cands.len(),
        members(cands, stratum).len() <= cands.len(),
    decreases cands.len(),
{
    if cands.len() > 0 {
        lemma_members_below(cands.drop_last(), stratum);
    }
}

proof fn lemma_walk_within(cands: Seq<Candidate>, order: Seq<usize>, cap: usize, bound: int)
    requires
        forall|p: int| 0 <= p < order.len() ==> #[trigger] order[p] < bound,
    ensures
        forall|p: int| 0 <= p < capped_walk(cands, order, cap).len() ==> #[trigger] capped_walk(cands, order, cap)[p]
            < bound,
    decreases order.len(),
{
    if order.len() > 0 {
        let d = order.drop_last();
        assert forall|p: int| 0 <= p < d.len() implies #[trigger] d[p] < bound by {
            assert(d[p] == order[p]);
        }
        lemma_walk_within(cands, d, cap, bound);
        assert(order.last() == order[order.len() - 1]);
        let walk = capped_walk(cands, d, cap);
        let res = capped_walk(cands, order, cap);
        assert(res == walk || res == walk.push(order.last()));
        assert forall|p: int| 0 <= p < res.len() implies #[trigger] res[p] < bound by {
            if res == walk {
                assert(res[p] == walk[p]);
            } else if p < walk.len() {
                assert(res[p] == walk[p]);
            } else {
                assert(res[p] == order.last());
            }
        }
    }
}

proof fn lemma_stratum_walk_below(cands: Seq<Candidate>, params: DrawParams, stratum: Stratum)
    requires
        cands.len() <= usize::MAX,
    ensures
        forall|p: int|
            0 <= p < stratum_walk(cands, params, stratum).len() ==> #[trigger] stratum_walk(cands, params, stratum)[p]
                < cands.len(),
{
    broadcast use vstd::seq_lib::group_to_multiset_ensures;
    let m = members(cands, stratum);
    lemma_members_below(cands, stratum);
    lemma_sort_bounds(sha_keys(cands), m);
    let sorted = sort_by_key(sha_keys(cands), m);
    let sh = shuffled(sorted, stratum_seed_of(params.seed, stratum));
    lemma_shuffle_permutes(sorted, stratum_seed_of(params.seed, stratum));
    assert forall|p: int| 0 <= p < sh.len() implies #[trigger] sh[p] < cands.len() by {
        assert(sh.contains(sh[p]));
        assert(sh.to_multiset().count(sh[p]) > 0);
        assert(sorted.contains(sh[p]));
    }
    lemma_walk_within(cands, sh, params.cap, cands.len() as int);
}

proof fn lemma_take_walks_below(cands: Seq<Candidate>, params: DrawParams, alloc: Seq<usize>, k: int)
    requires
        cands.len() <= usize::MAX,
        0 <= k <= STRATUM_COUNT,
        alloc.len() == STRATUM_COUNT,
        forall|i: int| 0 <= i < STRATUM_COUNT ==> #[trigger] alloc[i] <= walk_lengths(cands, params)[i],
    ensures
        forall|p: int| 0 <= p < take_walks(cands, params, alloc, k).len() ==> #[trigger] take_walks(
            cands,
            params,
            alloc,
            k,
        )[p] < cands.len(),
    decreases k,
{
    if k > 0 {
        lemma_take_walks_below(cands, params, alloc, k - 1);
        lemma_stratum_walk_below(cands, params, stratum_at(k - 1));
        let prev = take_walks(cands, params, alloc, k - 1);
        let w = stratum_walk(cands, params, stratum_at(k - 1));
        let t = w.take(alloc[k - 1] as int);
        assert(alloc[k - 1] <= walk_lengths(cands, params)[k - 1]);
        assert(walk_lengths(cands, params)[k - 1] == w.len() as usize);
        assert forall|p: int| 0 <= p < take_walks(cands, params, alloc, k).len() implies #[trigger] take_walks(
            cands,
            params,
            alloc,
            k,
        )[p] < cands.len() by {
            if p >= prev.len() {
                assert(take_walks(cands, params, alloc, k)[p] == t[p - prev.len()]);
            } else {
                assert(take_walks(cands, params, alloc, k)[p] == prev[p]);
            }
        }
    }
}

/// What a plan holds for commits whose newest readable timestamp exists:
/// the window of `weeks` weeks up to it, the merges it leaves out, one
/// candidate per window commit (lower-cased trimmed author e-mail, stratum
/// from its verdict), the draw over the candidates and the commits it
/// selects.
pub open spec fn planned(
    p: SamplePlan,
    commits: Seq<SampleCommit>,
    verdicts: Seq<ResolvedVerdict>,
    weeks: u32,
    params: DrawParams,
) -> bool {
    let start = newest(commits, commits.len() as int)->0 - weeks * WEEK_SECONDS;
    &&& Some(p.end) == newest(commits, commits.len() as int)
    &&& p.start == start
    &&& p.bad_timestamps == bad_count(commits, commits.len() as int)
    &&& p.window@ == window_rows(commits, start, commits.len() as int)
    &&& p.merges_excluded == window_merges(commits, start, commits.len() as int)
    &&& p.candidates.len() == p.window.len()
    &&& forall|k: int|
        0 <= k < p.window.len() ==> {
            let c = commits[p.window@[k] as int];
            &&& (#[trigger] p.candidates@[k]).sha@ == c.sha@
            &&& p.candidates@[k].repo@ == c.repo@
            &&& p.candidates@[k].author@ == unicode_lowercase(trim(c.author_email@))
            &&& p.candidates@[k].stratum == verdict_stratum(verdicts[p.window@[k] as int])
        }
    &&& drawn_from(p.draw, p.candidates@, params)
    &&& p.selected.len() == p.draw.selected.len()
    &&& forall|j: int| 0 <= j < p.selected.len() ==> #[trigger] p.selected@[j] == p.window@[p.draw.selected@[j] as int]
}

/// Two candidate lists that agree position by position, as plain values.
pub open spec fn same_views(a: Seq<Candidate>, b: Seq<Candidate>) -> bool {
    &&& a.len() == b.len()
    &&& forall|i: int| 0 <= i < a.len() ==> #[trigger] cand_view(a[i]) == cand_view(b[i])
}

proof fn lemma_members_views(a: Seq<Candidate>, b: Seq<Candidate>, s: Stratum)
    requires
        same_views(a, b),
    ensures
        members(a, s) == members(b, s),
    decreases a.len(),
{
    if a.len() > 0 {
        let n = a.len() - 1;
        assert(cand_view(a[n]) == cand_view(b[n]));
        assert forall|i: int| 0 <= i < a.drop_last().len() implies #[trigger] cand_view(a.drop_last()[i]) == cand_view(
            b.drop_last()[i],
        ) by {
            assert(cand_view(a[i]) == cand_view(b[i]));
        }
        lemma_members_views(a.drop_last(), b.drop_last(), s);
    }
}

proof fn lemma_counts_views(a: Seq<Candidate>, b: Seq<Candidate>, w: Seq<usize>, key: Seq<char>)
    requires
        same_views(a, b),
        forall|p: int| 0 <= p < w.len() ==> #[trigger] w[p] < a.len(),
    ensures
        repo_count(a, w, key) == repo_count(b, w, key),
        author_count(a, w, key) == author_count(b, w, key),
    decreases w.len(),
{
    if w.len() > 0 {
        let d = w.drop_last();
        assert forall|p: int| 0 <= p < d.len() implies #[trigger] d[p] < a.len() by {
            assert(d[p] == w[p]);
        }
        lemma_counts_views(a, b, d, key);
        let i = w.last() as int;
        assert(w[w.len() - 1] < a.len());
        assert(cand_view(a[i]) == cand_view(b[i]));
    }
}

proof fn lemma_walk_views(a: Seq<Candidate>, b: Seq<Candidate>, order: Seq<usize>, cap: usize)
    requires
        same_views(a, b),
        forall|p: int| 0 <= p < order.len() ==> #[trigger] order[p] < a.len(),
    ensures
        capped_walk(a, order, cap) == capped_walk(b, order, cap),
    decreases order.len(),
{
    if order.len() > 0 {
        let d = order.drop_last();
        assert forall|p: int| 0 <= p < d.len() implies #[trigger] d[p] < a.len() by {
            assert(d[p] == order[p]);
        }
        lemma_walk_views(a, b, d, cap);
        lemma_walk_within(a, d, cap, a.len() as int);
        let i = order.last() as int;
        assert(order[order.len() - 1] < a.len());
        assert(cand_view(a[i]) == cand_view(b[i]));
        let walk = capped_walk(a, d, cap);
        lemma_counts_views(a, b, walk, a[i].repo@);
        lemma_counts_views(a, b, walk, a[i].author@);
    }
}

proof fn lemma_stratum_walk_views(a: Seq<Candidate>, b: Seq<Candidate>, params: DrawParams, stratum: Stratum)
    requires
        same_views(a, b),
        a.len() <= usize::MAX,
    ensures
        stratum_walk(a, params, stratum) == stratum_walk(b, params, stratum),
{
    broadcast use vstd::seq_lib::group_to_multiset_ensures;
    lemma_members_views(a, b, stratum);
    assert forall|i: int| 0 <= i < a.len() implies sha_keys(a)[i] == sha_keys(b)[i] by {
        assert(cand_view(a[i]) == cand_view(b[i]));
    }
    assert(sha_keys(a) =~= sha_keys(b));
    let m = members(a, stratum);
    lemma_members_below(a, stratum);
    lemma_sort_bounds(sha_keys(a), m);
    let sorted = sort_by_key(sha_keys(a), m);
    let sh = shuffled(sorted, stratum_seed_of(params.seed, stratum));
    lemma_shuffle_permutes(sorted, stratum_seed_of(params.seed, stratum));
    assert forall|p: int| 0 <= p < sh.len() implies #[trigger] sh[p] < a.len() by {
        assert(sh.contains(sh[p]));
        assert(sh.to_multiset().count(sh[p]) > 0);
        assert(sorted.contains(sh[p]));
    }
    lemma_walk_views(a, b, sh, params.cap);
}

proof fn lemma_take_walks_views(a: Seq<Candidate>, b: Seq<Candidate>, params: DrawParams, alloc: Seq<usize>, k: int)
    requires
        same_views(a, b),
        a.len() <= usize::MAX,
    ensures
        take_walks(a, params, alloc, k) == take_walks(b, params, alloc, k),
    decreases k,
{
    if k > 0 {
        lemma_take_walks_views(a, b, params, alloc, k - 1);
        lemma_stratum_walk_views(a, b, params, stratum_at(k - 1));
    }
}

/// A plan is a function of its inputs: two plans that meet [`planned`] for
/// the same commits, verdicts, weeks and draw parameters have the same
/// window (anchored at the newest commit, not at the clock), the same
/// candidates, the same draw and the same selected commits.
pub proof fn lemma_plan_is_a_function_of_its_inputs(
    p1: SamplePlan,
    p2: SamplePlan,
    commits: Seq<SampleCommit>,
    verdicts: Seq<ResolvedVerdict>,
    weeks: u32,
    params: DrawParams,
)
    requires
        planned(p1, commits, verdicts, weeks, params),
        planned(p2, commits, verdicts, weeks, params),
    ensures
        p1.end == p2.end,
        p1.start == p2.start,
        p1.bad_timestamps == p2.bad_timestamps,
        p1.window@ == p2.window@,
        p1.merges_excluded == p2.merges_excluded,
        same_views(p1.candidates@, p2.candidates@),
        p1.draw.population@ == p2.draw.population@,
        p1.draw.sampled@ == p2.draw.sampled@,
        p1.draw.selected@ == p2.draw.selected@,
        p1.selected@ == p2.selected@,
{
    let c1 = p1.candidates@;
    let c2 = p2.candidates@;
    assert forall|i: int| 0 <= i < c1.len() implies #[trigger] cand_view(c1[i]) == cand_view(c2[i]) by {
        assert(c1[i] == p1.candidates@[i]);
        assert(c2[i] == p2.candidates@[i]);
    }
    assert(same_views(c1, c2));
    assert(c1.len() == p1.candidates.len());
    assert(c1.len() <= usize::MAX);
    assert forall|k: int| 0 <= k < STRATUM_COUNT implies #[trigger] p1.draw.population[k] == p2.draw.population[k] by {
        lemma_members_views(c1, c2, stratum_at(k));
    }
    assert(p1.draw.population@ =~= p2.draw.population@);
    assert forall|k: int| 0 <= k < STRATUM_COUNT implies #[trigger] walk_lengths(c1, params)[k] == walk_lengths(
        c2,
        params,
    )[k] by {
        lemma_stratum_walk_views(c1, c2, params, stratum_at(k));
    }
    assert(walk_lengths(c1, params) =~= walk_lengths(c2, params));
    crate::eval::water::lemma_water_filling_unique(
        params.size as int,
        walk_lengths(c1, params),
        p1.draw.sampled@,
        p2.draw.sampled@,
    );
    lemma_take_walks_views(c1, c2, params, p1.draw.sampled@, STRATUM_COUNT as int);
    assert(p1.selected@ =~= p2.selected@);
}

/// Plan a sample over `commits`, whose verdicts are `verdicts` (one per
/// commit): the window is the `weeks` weeks up to the newest timestamp,
/// merges left out and counted, and the draw runs over the window's
/// commits with their strata and their trimmed, lower-cased author
/// e-mails.
pub fn plan_sample(
    commits: &[SampleCommit],
    verdicts: &[ResolvedVerdict],
    weeks: u32,
    params: &DrawParams,
) -> (r: Result<SamplePlan, SampleError>)
    requires
        verdicts.len() == commits.len(),
    ensures
        (params.size == 0 || params.cap == 0) ==> r == Err::<SamplePlan, SampleError>(SampleError::ZeroSizeOrCap),
        !(params.size == 0 || params.cap == 0) && newest(commits@, commits.len() as int) is None ==> r == Err::<
            SamplePlan,
            SampleError,
        >(SampleError::NoCommits),
        !(params.size == 0 || params.cap == 0) && newest(commits@, commits.len() as int) is Some ==> (r matches Ok(
            p,
        ) && planned(p, commits@, verdicts@, weeks, *params)),
{
    if params.size == 0 || params.cap == 0 {
        return Err(SampleError::ZeroSizeOrCap);
    }
    let n = commits.len();
    let mut end: Option<i64> = None;
    let mut bad: usize = 0;
    let mut i: usize = 0;
    while i < n
        invariant
            n == commits.len(),
            i <= n,
            end == newest(commits@, i as int),
            bad == bad_count(commits@, i as int),
            bad <= i,
        decreases n - i,
    {
        match commits[i].ts {
            None => {
                bad = bad + 1;
            },
            Some(t) => {
                end = match end {
                    Some(m) => if t > m {
                        Some(t)
                    } else {
                        Some(m)
                    },
                    None => Some(t),
                };
            },
        }
        i = i + 1;
    }
    let end = match end {
        None => {
            return Err(SampleError::NoCommits);
        },
        Some(e) => e,
    };
    let start: i128 = end as i128 - (weeks as i128) * WEEK_SECONDS;
    let mut window: Vec<usize> = Vec::new();
    let mut merges: usize = 0;
    let mut candidates: Vec<Candidate> = Vec::new();
    let mut k: usize = 0;
    while k < n
        invariant
            n == commits.len(),
            verdicts.len() == n,
            k <= n,
            window@ == window_rows(commits@, start as int, k as int),
            merges == window_merges(commits@, start as int, k as int),
            merges <= k,
            forall|q: int| 0 <= q < window.len() ==> #[trigger] window@[q] < k,
            candidates.len() == window.len(),
            forall|q: int|
                0 <= q < window.len() ==> {
                    let c = commits@[window@[q] as int];
                    &&& (#[trigger] candidates@[q]).sha@ == c.sha@
                    &&& candidates@[q].repo@ == c.repo@
                    &&& candidates@[q].author@ == unicode_lowercase(trim(c.author_email@))
                    &&& candidates@[q].stratum == verdict_stratum(verdicts@[window@[q] as int])
                },
        decreases n - k,
    {
        let c = &commits[k];
        let inside = match c.ts {
            Some(t) => t as i128 >= start,
            None => false,
        };
        if inside {
            if c.is_merge {
                merges = merges + 1;
            } else {
                let e = chars_of(c.author_email.as_str());
                let t = trim_chars(e.as_slice());
                let ts = string_from_chars(t.as_slice());
                let author = to_lowercase(ts.as_str());
                let v = &verdicts[k];
                let stratum = Stratum::classify(v.tier, v.category.as_str(), v.confidence_bits);
                window.push(k);
                candidates.push(
                    Candidate {
                        sha: String::from_str(c.sha.as_str()),
                        repo: String::from_str(c.repo.as_str()),
                        author,
                        stratum,
                    },
                );
            }
        }
        k = k + 1;
    }
    let d = draw(candidates.as_slice(), params);
    proof {
        lemma_water_filling_laws(params.size as int, walk_lengths(candidates@, *params), d.sampled@);
        lemma_take_walks_below(candidates@, *params, d.sampled@, STRATUM_COUNT as int);
    }
    let mut selected: Vec<usize> = Vec::new();
    let mut j: usize = 0;
    while j < d.selected.len()
        invariant
            j <= d.selected.len(),
            selected.len() == j,
            d.selected@ == take_walks(candidates@, *params, d.sampled@, STRATUM_COUNT as int),
            forall|q: int| 0 <= q < j ==> #[trigger] selected@[q] == window@[d.selected@[q] as int],
            forall|q: int| 0 <= q < d.selected.len() ==> #[trigger] d.selected@[q] < candidates.len(),
            candidates.len() == window.len(),
        decreases d.selected.len() - j,
    {
        selected.push(window[d.selected[j]]);
        j = j + 1;
    }
    Ok(
        SamplePlan {
            end,
            start,
            bad_timestamps: bad,
            window,
            merges_excluded: merges,
            candidates,
            draw: d,
            selected,
        },
    )
}

} // verus!
