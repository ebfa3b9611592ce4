//! Merge status of sample rows for scoring: a commit with two or more
//! parents is excluded, and a row whose status cannot be determined is an
//! error, never a silent non-merge.

use vstd::prelude::*;

verus! {

/// Why the merge status of a sample could not be settled.
#[derive(Clone, Copy, Debug, PartialEq, Eq, Structural)]
pub enum MergeFlagError {
    /// Rows carry no merge flag and no database was given; how many.
    NoDatabase { unknown: usize },
    /// Rows whose SHA the database does not hold: how many, and the first.
    Missing { count: usize, first: usize },
}

/// Rows without their own flag.
pub open spec fn unflagged(own: Seq<Option<bool>>) -> nat
    decreases own.len(),
{
    if own.len() == 0 {
        0
    } else {
        unflagged(own.drop_last()) + if own.last() is None { 1nat } else { 0nat }
    }
}

/// Rows whose status is unknown after the database lookup.
pub open spec fn unresolved(own: Seq<Option<bool>>, stored: Seq<Option<bool>>) -> nat
    decreases own.len(),
{
    if own.len() == 0 {
        0
    } else {
        unresolved(own.drop_last(), stored) + if own.last() is None && stored[own.len() - 1] is None {
            1nat
        } else {
            0nat
        }
    }
}

proof fn lemma_count_bound(own: Seq<Option<bool>>, stored: Seq<Option<bool>>)
    ensures
        unflagged(own) <= own.len(),
        unresolved(own, stored) <= own.len(),
    decreases own.len(),
{
    if own.len() > 0 {
        lemma_count_bound(own.drop_last(), stored);
    }
}

/// Merge flag per sample row, in sample order: a row's own flag, else the
/// database's (`stored`, one entry per row, `None` when the database does
/// not hold the SHA; `None` as a whole when no database was given).
pub fn resolve_merge_flags(own: &[Option<bool>], stored: Option<&[Option<bool>]>) -> (r: Result<
    Vec<bool>,
    MergeFlagError,
>)
    requires
        stored matches Some(s) ==> s@.len() == own@.len(),
    ensures
        match r {
            Ok(flags) => flags@.len() == own@.len() && forall|i: int|
                0 <= i < own@.len() ==> #[trigger] flags@[i] == match own@[i] {
                    Some(b) => b,
                    None => match stored {
                        Some(s) => s@[i] == Some(true),
                        None => false,
                    },
                },
            Err(MergeFlagError::NoDatabase { unknown }) => stored is None && unknown == unflagged(own@)
                && unknown > 0,
            Err(MergeFlagError::Missing { count, first }) => stored matches Some(s) && count == unresolved(
                own@,
                s@,
            ) && count > 0 && first < own@.len() && own@[first as int] is None && s@[first as int] is None
                && forall|j: int| 0 <= j < first ==> !(own@[j] is None && s@[j] is None),
        },
        r is Ok <==> match stored {
            None => unflagged(own@) == 0,
            Some(s) => unresolved(own@, s@) == 0,
        },
{
    let mut unknown: usize = 0;
    let mut missing: usize = 0;
    let mut first: Option<usize> = None;
    let mut i: usize = 0;
    while i < own.len()
        invariant
            i <= own@.len(),
            stored matches Some(s) ==> s@.len() == own@.len(),
            unknown == unflagged(own@.take(i as int)),
            stored matches Some(s) ==> missing == unresolved(own@.take(i as int), s@),
            missing > 0 <==> first is Some,
            stored matches Some(s) ==> match first {
                Some(f) => f < i && own@[f as int] is None && s@[f as int] is None && forall|j: int|
                    0 <= j < f ==> !(own@[j] is None && s@[j] is None),
                None => forall|j: int| 0 <= j < i ==> !(own@[j] is None && s@[j] is None),
            },
        decreases own@.len() - i,
    {
        proof {
            assert(own@.take(i as int + 1).drop_last() =~= own@.take(i as int));
            lemma_count_bound(own@.take(i as int), own@);
            match stored {
                Some(s) => lemma_count_bound(own@.take(i as int), s@),
                None => {},
            }
        }
        if own[i].is_none() {
            unknown = unknown + 1;
            match stored {
                Some(s) => {
                    if s[i].is_none() {
                        missing = missing + 1;
                        if first.is_none() {
                            first = Some(i);
                        }
                    }
                },
                None => {},
            }
        }
        i = i + 1;
    }
    assert(own@.take(own@.len() as int) =~= own@);
    match stored {
        None => {
            if unknown > 0 {
                return Err(MergeFlagError::NoDatabase { unknown });
            }
        },
        Some(_) => {
            if missing > 0 {
                match first {
                    Some(f) => {
                        return Err(MergeFlagError::Missing { count: missing, first: f });
                    },
                    None => {},
                }
            }
        },
    }
    let mut flags: Vec<bool> = Vec::new();
    let mut k: usize = 0;
    while k < own.len()
        invariant
            k <= own@.len(),
            stored matches Some(s) ==> s@.len() == own@.len(),
            flags@.len() == k,
            forall|q: int|
                0 <= q < k ==> #[trigger] flags@[q] == match own@[q] {
                    Some(b) => b,
                    None => match stored {
                        Some(s) => s@[q] == Some(true),
                        None => false,
                    },
                },
        decreases own@.len() - k,
    {
        let f = match own[k] {
            Some(b) => b,
            None => match stored {
                Some(s) => match s[k] {
                    Some(b) => b,
                    None => false,
                },
                None => false,
            },
        };
        flags.push(f);
        k = k + 1;
    }
    Ok(flags)
}

} // verus!
