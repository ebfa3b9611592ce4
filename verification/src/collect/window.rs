//! Which commits of a newest-first history walk fall in the collection
//! window.
//!
//! The walk yields commits newest first, so the first commit older than the
//! window's start ends it: every commit after it is older still. Commits
//! newer than the window's end are passed over, as are merges when they are
//! not collected and commits whose timestamp cannot be read. A recorded
//! commit is written only when the table does not hold its SHA yet, so a
//! second walk over the same window writes nothing.

use vstd::prelude::*;
use crate::text::str_eq;

verus! {

/// What the walk does with one commit.
#[derive(Clone, Copy, Debug, PartialEq, Eq, Structural)]
pub enum WalkStep {
    /// The commit is older than the window: end the walk.
    Stop,
    /// Pass over the commit and go on.
    Skip,
    /// Record the commit and go on.
    Record,
}

/// The step for a commit with timestamp `ts` (seconds; `None` when it
/// cannot be read), given the window's inclusive bounds.
pub open spec fn step_of(
    ts: Option<i64>,
    since: Option<i64>,
    until: Option<i64>,
    is_merge: bool,
    skip_merges: bool,
) -> WalkStep {
    match ts {
        None => WalkStep::Skip,
        Some(t) => if since matches Some(s) && t < s {
            WalkStep::Stop
        } else if until matches Some(u) && t > u {
            WalkStep::Skip
        } else if skip_merges && is_merge {
            WalkStep::Skip
        } else {
            WalkStep::Record
        },
    }
}

/// Decide what the walk does with one commit.
pub fn walk_step(
    ts: Option<i64>,
    since: Option<i64>,
    until: Option<i64>,
    is_merge: bool,
    skip_merges: bool,
) -> (r: WalkStep)
    ensures
        r == step_of(ts, since, until, is_merge, skip_merges),
{
    match ts {
        None => WalkStep::Skip,
        Some(t) => {
            let too_old = match since {
                Some(s) => t < s,
                None => false,
            };
            let too_new = match until {
                Some(u) => t > u,
                None => false,
            };
            if too_old {
                WalkStep::Stop
            } else if too_new {
                WalkStep::Skip
            } else if skip_merges && is_merge {
                WalkStep::Skip
            } else {
                WalkStep::Record
            }
        },
    }
}

/// The readable timestamps never increase along the walk.
pub open spec fn newest_first(ts: Seq<Option<i64>>) -> bool {
    forall|i: int, j: int|
        #![trigger ts[i], ts[j]]
        0 <= i < j < ts.len() ==> (ts[i] matches Some(a) && ts[j] matches Some(b) ==> a >= b)
}

/// The commit at `j` lies in the window and is collected.
pub open spec fn in_window(
    ts: Seq<Option<i64>>,
    merges: Seq<bool>,
    j: int,
    since: Option<i64>,
    until: Option<i64>,
    skip_merges: bool,
) -> bool {
    step_of(ts[j], since, until, merges[j], skip_merges) == WalkStep::Record
}

/// Ending the walk at the first commit older than the window loses no
/// commit of the window: when the walk is newest first and commit `k` is
/// a stop, no commit from `k` on would be recorded.
pub proof fn lemma_stopping_early_loses_nothing(
    ts: Seq<Option<i64>>,
    merges: Seq<bool>,
    k: int,
    since: Option<i64>,
    until: Option<i64>,
    skip_merges: bool,
)
    requires
        newest_first(ts),
        merges.len() == ts.len(),
        0 <= k < ts.len(),
        step_of(ts[k], since, until, merges[k], skip_merges) == WalkStep::Stop,
    ensures
        forall|j: int|
            k <= j < ts.len() ==> !#[trigger] in_window(ts, merges, j, since, until, skip_merges),
{
    assert forall|j: int| k <= j < ts.len() implies !#[trigger] in_window(
        ts,
        merges,
        j,
        since,
        until,
        skip_merges,
    ) by {
        if j > k {
            assert(ts[k] matches Some(a) && ts[j] matches Some(b) ==> a >= b);
        }
    }
}

/// Some entry of `table` has the SHA `s`.
pub open spec fn holds_sha(table: Seq<String>, s: Seq<char>) -> bool {
    exists|i: int| 0 <= i < table.len() && #[trigger] table[i]@ == s
}

/// Some commit among `written` has the SHA `s`.
pub open spec fn wrote_sha(shas: Seq<String>, written: Seq<usize>, s: Seq<char>) -> bool {
    exists|p: int| 0 <= p < written.len() && #[trigger] shas[written[p] as int]@ == s
}

/// A stop occurs among the first `n` commits.
pub open spec fn halted(
    ts: Seq<Option<i64>>,
    merges: Seq<bool>,
    since: Option<i64>,
    until: Option<i64>,
    skip_merges: bool,
    n: int,
) -> bool
    decreases n,
{
    n > 0 && (halted(ts, merges, since, until, skip_merges, n - 1) || step_of(
        ts[n - 1],
        since,
        until,
        merges[n - 1],
        skip_merges,
    ) == WalkStep::Stop)
}

/// The commits among the first `n` that the walk writes, in walk order:
/// recorded before any stop, with a SHA neither in `table` nor written
/// earlier in the walk (`INSERT OR IGNORE`).
pub open spec fn written(
    ts: Seq<Option<i64>>,
    merges: Seq<bool>,
    shas: Seq<String>,
    table: Seq<String>,
    since: Option<i64>,
    until: Option<i64>,
    skip_merges: bool,
    n: int,
) -> Seq<usize>
    decreases n,
{
    if n <= 0 {
        Seq::empty()
    } else {
        let prev = written(ts, merges, shas, table, since, until, skip_merges, n - 1);
        if !halted(ts, merges, since, until, skip_merges, n - 1) && step_of(
            ts[n - 1],
            since,
            until,
            merges[n - 1],
            skip_merges,
        ) == WalkStep::Record && !holds_sha(table, shas[n - 1]@) && !wrote_sha(shas, prev, shas[n - 1]@) {
            prev.push((n - 1) as usize)
        } else {
            prev
        }
    }
}

/// The commits a walk over the window writes to a table holding `table`:
/// their positions, in walk order; their number is what the walk reports.
pub fn window_writes(
    ts: &[Option<i64>],
    merges: &[bool],
    shas: &[String],
    table: &[String],
    since: Option<i64>,
    until: Option<i64>,
    skip_merges: bool,
) -> (v: Vec<usize>)
    requires
        merges.len() == ts.len(),
        shas.len() == ts.len(),
    ensures
        v@ == written(ts@, merges@, shas@, table@, since, until, skip_merges, ts.len() as int),
{
    let mut v: Vec<usize> = Vec::new();
    let mut stop = false;
    let mut i: usize = 0;
    while i < ts.len()
        invariant
            i <= ts.len(),
            merges.len() == ts.len(),
            shas.len() == ts.len(),
            stop == halted(ts@, merges@, since, until, skip_merges, i as int),
            v@ == written(ts@, merges@, shas@, table@, since, until, skip_merges, i as int),
            forall|p: int| 0 <= p < v.len() ==> #[trigger] v@[p] < i,
        decreases ts.len() - i,
    {
        let step = walk_step(ts[i], since, until, merges[i], skip_merges);
        if !stop && step == WalkStep::Record {
            let mut in_table = false;
            let mut k: usize = 0;
            while k < table.len()
                invariant
                    k <= table.len(),
                    i < shas.len(),
                    in_table <==> exists|q: int| 0 <= q < k && #[trigger] table@[q]@ == shas@[i as int]@,
                decreases table.len() - k,
            {
                if str_eq(table[k].as_str(), shas[i].as_str()) {
                    in_table = true;
                }
                k = k + 1;
            }
            let mut seen = false;
            let mut q: usize = 0;
            while q < v.len()
                invariant
                    q <= v.len(),
                    i < shas.len(),
                    forall|p: int| 0 <= p < v.len() ==> #[trigger] v@[p] < i,
                    seen <==> exists|p: int| 0 <= p < q && #[trigger] shas@[v@[p] as int]@ == shas@[i as int]@,
                decreases v.len() - q,
            {
                let w = v[q];
                if str_eq(shas[w].as_str(), shas[i].as_str()) {
                    seen = true;
                }
                q = q + 1;
            }
            if !in_table && !seen {
                v.push(i);
            }
        }
        if step == WalkStep::Stop {
            stop = true;
        }
        i = i + 1;
    }
    v
}

proof fn lemma_written_prefix(
    ts: Seq<Option<i64>>,
    merges: Seq<bool>,
    shas: Seq<String>,
    table: Seq<String>,
    since: Option<i64>,
    until: Option<i64>,
    skip_merges: bool,
    n: int,
    m: int,
)
    requires
        0 <= n <= m,
    ensures
        written(ts, merges, shas, table, since, until, skip_merges, n).len() <= written(
            ts,
            merges,
            shas,
            table,
            since,
            until,
            skip_merges,
            m,
        ).len(),
        forall|p: int|
            0 <= p < written(ts, merges, shas, table, since, until, skip_merges, n).len() ==> #[trigger] written(
                ts,
                merges,
                shas,
                table,
                since,
                until,
                skip_merges,
                n,
            )[p] == written(ts, merges, shas, table, since, until, skip_merges, m)[p],
    decreases m - n,
{
    if n < m {
        lemma_written_prefix(ts, merges, shas, table, since, until, skip_merges, n, m - 1);
    }
}

/// The SHAs of the commits at `idx`.
pub open spec fn shas_of(shas: Seq<String>, idx: Seq<usize>) -> Seq<String> {
    idx.map_values(|i: usize| shas[i as int])
}

/// Walking the same window twice writes nothing the second time: once the
/// commits the first walk wrote are in the table, the second walk finds
/// every recorded SHA there.
pub proof fn lemma_second_walk_writes_nothing(
    ts: Seq<Option<i64>>,
    merges: Seq<bool>,
    shas: Seq<String>,
    table: Seq<String>,
    since: Option<i64>,
    until: Option<i64>,
    skip_merges: bool,
)
    requires
        merges.len() == ts.len(),
        shas.len() == ts.len(),
        ts.len() <= usize::MAX,
    ensures
        ({
            let first = written(ts, merges, shas, table, since, until, skip_merges, ts.len() as int);
            written(ts, merges, shas, table + shas_of(shas, first), since, until, skip_merges, ts.len() as int)
                =~= Seq::<usize>::empty()
        }),
{
    let n = ts.len() as int;
    lemma_second_walk_prefix(ts, merges, shas, table, since, until, skip_merges, n, n);
}

proof fn lemma_second_walk_prefix(
    ts: Seq<Option<i64>>,
    merges: Seq<bool>,
    shas: Seq<String>,
    table: Seq<String>,
    since: Option<i64>,
    until: Option<i64>,
    skip_merges: bool,
    n: int,
    k: int,
)
    requires
        merges.len() == ts.len(),
        shas.len() == ts.len(),
        n == ts.len(),
        n <= usize::MAX,
        0 <= k <= n,
    ensures
        written(
            ts,
            merges,
            shas,
            table + shas_of(shas, written(ts, merges, shas, table, since, until, skip_merges, n)),
            since,
            until,
            skip_merges,
            k,
        ) =~= Seq::<usize>::empty(),
    decreases k,
{
    let first = written(ts, merges, shas, table, since, until, skip_merges, n);
    let table2 = table + shas_of(shas, first);
    if k > 0 {
        lemma_second_walk_prefix(ts, merges, shas, table, since, until, skip_merges, n, k - 1);
        let j = k - 1;
        let s = shas[j]@;
        if !halted(ts, merges, since, until, skip_merges, j) && step_of(ts[j], since, until, merges[j], skip_merges)
            == WalkStep::Record {
            if holds_sha(table, s) {
                let i = choose|i: int| 0 <= i < table.len() && #[trigger] table[i]@ == s;
                assert(table2[i] == table[i]);
            } else {
                let prev = written(ts, merges, shas, table, since, until, skip_merges, j);
                lemma_written_prefix(ts, merges, shas, table, since, until, skip_merges, j, n);
                if wrote_sha(shas, prev, s) {
                    let p = choose|p: int| 0 <= p < prev.len() && #[trigger] shas[prev[p] as int]@ == s;
                    assert(first[p] == prev[p]);
                    assert(shas_of(shas, first)[p] == shas[first[p] as int]);
                    assert(table2[table.len() + p] == shas[first[p] as int]);
                } else {
                    let cur = written(ts, merges, shas, table, since, until, skip_merges, k);
                    assert(cur == prev.push(j as usize));
                    lemma_written_prefix(ts, merges, shas, table, since, until, skip_merges, k, n);
                    let p = prev.len() as int;
                    assert(cur[p] == j as usize);
                    assert(first[p] == j as usize);
                    assert(shas_of(shas, first)[p] == shas[j]);
                    assert(table2[table.len() + p] == shas[j]);
                }
            }
            assert(holds_sha(table2, s));
        }
    }
}

/// What the walk does with a commit, in terms of the window: a readable
/// timestamp before `since` stops it; a commit is recorded exactly when its
/// timestamp is readable and within `[since, until]` (an absent bound is
/// open) and it is not a merge being skipped; everything else is passed
/// over.
pub proof fn lemma_walk_steps(
    ts: Option<i64>,
    since: Option<i64>,
    until: Option<i64>,
    is_merge: bool,
    skip_merges: bool,
)
    ensures
        step_of(ts, since, until, is_merge, skip_merges) == WalkStep::Stop <==> (ts matches Some(t) && since matches Some(
            s,
        ) && t < s),
        step_of(ts, since, until, is_merge, skip_merges) == WalkStep::Record <==> (ts matches Some(t) && (since
            matches Some(s) ==> s <= t) && (until matches Some(u) ==> t <= u) && !(skip_merges && is_merge)),
{
}

} // verus!
