//! Versioned schema migrations: which steps a database still needs.

use vstd::prelude::*;

verus! {

/// A single migration step.
#[derive(Clone, Copy, Debug)]
pub struct Migration {
    /// Strictly increasing version number; must be unique.
    pub version: i64,
    /// Human-readable label, recorded for audit and debugging.
    pub name: &'static str,
    /// The SQL to execute; may hold several statements separated by `;`.
    pub sql: &'static str,
}

/// Versions strictly increase along the list.
pub open spec fn strictly_increasing(versions: Seq<i64>) -> bool {
    forall|a: int, b: int| 0 <= a < b < versions.len() ==> versions[a] < versions[b]
}

/// The versions of a migration list.
pub open spec fn versions_of(ms: Seq<Migration>) -> Seq<i64> {
    Seq::new(ms.len(), |i: int| ms[i].version)
}

/// Positions of the migrations newer than `current`, in list order.
pub open spec fn pending_of(versions: Seq<i64>, current: i64) -> Seq<usize>
    decreases versions.len(),
{
    if versions.len() == 0 {
        Seq::empty()
    } else {
        let prev = pending_of(versions.drop_last(), current);
        if versions.last() > current {
            prev.push((versions.len() - 1) as usize)
        } else {
            prev
        }
    }
}

/// Positions of the migrations whose version is greater than the schema's
/// `current` version, in the order they are applied.
pub fn pending_migrations(migrations: &[Migration], current: i64) -> (p: Vec<usize>)
    ensures
        p@ == pending_of(versions_of(migrations@), current),
{
    let ghost vs = versions_of(migrations@);
    let mut p: Vec<usize> = Vec::new();
    let mut i: usize = 0;
    while i < migrations.len()
        invariant
            i <= migrations.len(),
            vs == versions_of(migrations@),
            p@ == pending_of(vs.take(i as int), current),
        decreases migrations.len() - i,
    {
        proof {
            assert(vs.take(i as int + 1).drop_last() =~= vs.take(i as int));
            assert(vs.take(i as int + 1).last() == migrations@[i as int].version);
        }
        if migrations[i].version > current {
            p.push(i);
        }
        i = i + 1;
    }
    assert(vs.take(migrations.len() as int) =~= vs);
    p
}

/// The schema version after applying `pending` on top of `current`: the
/// last applied version, or `current` when nothing was pending.
pub open spec fn version_after(versions: Seq<i64>, current: i64) -> i64 {
    let p = pending_of(versions, current);
    if p.len() == 0 {
        current
    } else {
        versions[p.last() as int]
    }
}

proof fn lemma_pending_shape(versions: Seq<i64>, current: i64)
    requires
        versions.len() <= usize::MAX,
    ensures
        forall|k: int| 0 <= k < pending_of(versions, current).len() ==> {
            &&& #[trigger] pending_of(versions, current)[k] < versions.len()
            &&& versions[pending_of(versions, current)[k] as int] > current
        },
        forall|j: int| 0 <= j < versions.len() && versions[j] > current ==> exists|k: int|
            0 <= k < pending_of(versions, current).len() && #[trigger] pending_of(versions, current)[k] == j,
        pending_of(versions, current).len() > 0 ==> forall|j: int|
            pending_of(versions, current).last() < j < versions.len() ==> versions[j] <= current,
    decreases versions.len(),
{
    if versions.len() > 0 {
        let dl = versions.drop_last();
        lemma_pending_shape(dl, current);
        let prev = pending_of(dl, current);
        let p = pending_of(versions, current);
        assert forall|k: int| 0 <= k < p.len() implies {
            &&& #[trigger] p[k] < versions.len()
            &&& versions[p[k] as int] > current
        } by {
            if k < prev.len() {
                assert(p[k] == prev[k]);
                assert(dl[prev[k] as int] == versions[prev[k] as int]);
            }
        }
        assert forall|j: int| 0 <= j < versions.len() && versions[j] > current implies exists|k: int|
            0 <= k < p.len() && #[trigger] p[k] == j by {
            if j < versions.len() - 1 {
                assert(dl[j] == versions[j]);
                let k = choose|k: int| 0 <= k < prev.len() && #[trigger] prev[k] == j;
                assert(p[k] == prev[k]);
            } else {
                assert(p[p.len() - 1] == j);
            }
        }
        if p.len() > 0 {
            assert forall|j: int| p.last() < j < versions.len() implies versions[j] <= current by {
                if versions.last() <= current && j < versions.len() - 1 {
                    assert(dl[j] == versions[j]);
                }
            }
        }
    }
}

/// Migrating is idempotent: once the pending migrations of a list with
/// strictly increasing versions are applied, none is pending at the new
/// schema version.
pub proof fn lemma_migrations_idempotent(versions: Seq<i64>, current: i64)
    requires
        versions.len() <= usize::MAX,
        strictly_increasing(versions),
    ensures
        pending_of(versions, version_after(versions, current)).len() == 0,
        version_after(versions, current) >= current,
{
    lemma_pending_shape(versions, current);
    let after = version_after(versions, current);
    lemma_pending_shape(versions, after);
    let p = pending_of(versions, current);
    if p.len() > 0 {
        let last = p.last() as int;
        assert(versions[last] > current);
        assert forall|j: int| 0 <= j < versions.len() implies versions[j] <= after by {
            if j > last {
                assert(versions[j] <= current);
            } else if j < last {
                assert(versions[j] < versions[last]);
            }
        }
    } else {
        assert forall|j: int| 0 <= j < versions.len() implies versions[j] <= current by {
            if versions[j] > current {
                let k = choose|k: int| 0 <= k < p.len() && #[trigger] p[k] == j;
            }
        }
    }
    let q = pending_of(versions, after);
    if q.len() > 0 {
        assert(versions[q[0] as int] > after);
    }
}

} // verus!
