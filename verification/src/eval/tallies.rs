//! The integer side of scoring a labelled sample: which rows count, the
//! final label of each, and what is tallied from them.
//!
//! One or two rater label files are read; the first rater's labels are
//! scored, an adjudicated label replacing the first rater's where there is
//! one. Every labelled SHA must be in the sample. A merge commit leaves the
//! eval with its labels. Adjudication settles the first rater's rows and
//! cannot add rows. Rates and intervals are left to the caller.

use vstd::prelude::*;
use crate::eval::score::{
    check_label, count_outcomes, label_outcome, no_answer, normal_label, rows_view, tallies_of, LabelCheck, OutcomeCounts,
};
use crate::text::{
    chars_of, eq_ignore_ascii_case, str_eq, string_from_chars, to_lowercase, trim, trim_chars, unicode_lowercase,
};

verus! {

/// One sample row as scoring reads it.
#[derive(Clone, Debug)]
pub struct ScoreRow {
    /// Commit SHA.
    pub sha: String,
    /// Predicted category.
    pub predicted: String,
    /// Rule that produced the prediction.
    pub rule_id: String,
    /// Classification method.
    pub method: String,
    /// Stratum label.
    pub stratum: String,
}

/// Why a scoring run was refused.
#[derive(Clone, Debug, PartialEq, Eq)]
pub enum ScoreError {
    /// Not one or two rater files.
    LabelFileCount(usize),
    /// A label names this SHA, which the sample does not hold.
    OutsideSample(String),
    /// An adjudicated label for this SHA, which the first rater left blank.
    AdjudicatedBlank(String),
}

/// What a scoring run tallies.
#[derive(Clone, Debug)]
pub struct ScoreTallies {
    /// Rows in the sample, merges included.
    pub sample_size: usize,
    /// Merge rows left out.
    pub merges_excluded: usize,
    /// Positions of the rows kept (the non-merges), in order.
    pub kept: Vec<usize>,
    /// Final label of each kept row, `None` when unlabelled.
    pub finals: Vec<Option<String>>,
    /// Outcome of each kept row: `None` unlabelled, `Some(None)` a
    /// no-answer label, `Some(Some(correct))` scored.
    pub outcomes: Vec<Option<Option<bool>>>,
    /// Kept rows with a final label.
    pub labelled: usize,
    /// Kept rows scored right or wrong.
    pub scored: usize,
    /// Final labels `unclear`.
    pub unclear: usize,
    /// Final labels `mixed`.
    pub mixed: usize,
    /// Final labels `release_merge`.
    pub release_merge: usize,
    /// First-rater rows the second rater labelled differently and no
    /// adjudication settled.
    pub unresolved: usize,
    /// Tallies by rule id.
    pub per_rule: Vec<OutcomeCounts>,
    /// Tallies by method.
    pub per_method: Vec<OutcomeCounts>,
    /// Tallies by stratum.
    pub per_stratum: Vec<OutcomeCounts>,
    /// Confusion cells: lower-cased predicted category, final label, and
    /// how many kept rows carry that pair.
    pub confusion: Vec<(String, String, usize)>,
}

/// A label map: no SHA twice.
pub open spec fn distinct_shas(m: Seq<(String, String)>) -> bool {
    forall|i: int, j: int| 0 <= i < j < m.len() ==> #[trigger] m[i].0@ != #[trigger] m[j].0@
}

/// The label a map gives `sha`.
pub open spec fn label_in(m: Seq<(String, String)>, sha: Seq<char>) -> Option<Seq<char>>
    decreases m.len(),
{
    if m.len() == 0 {
        None
    } else if m[0].0@ == sha {
        Some(m[0].1@)
    } else {
        label_in(m.drop_first(), sha)
    }
}

/// The sample holds `sha`.
pub open spec fn in_sample(rows: Seq<ScoreRow>, sha: Seq<char>) -> bool {
    exists|i: int| 0 <= i < rows.len() && #[trigger] rows[i].sha@ == sha
}

/// `sha` belongs to a merge row.
pub open spec fn merge_sha(rows: Seq<ScoreRow>, merge: Seq<bool>, sha: Seq<char>) -> bool {
    exists|i: int| 0 <= i < rows.len() && merge[i] && #[trigger] rows[i].sha@ == sha
}

/// Every rater's entries, then the adjudicated ones.
pub open spec fn flat(maps: Seq<Vec<(String, String)>>) -> Seq<(String, String)>
    decreases maps.len(),
{
    if maps.len() == 0 {
        Seq::empty()
    } else {
        flat(maps.drop_last()) + maps.last()@
    }
}

/// The first entry whose SHA the sample does not hold.
pub open spec fn first_outside(entries: Seq<(String, String)>, rows: Seq<ScoreRow>) -> Option<Seq<char>>
    decreases entries.len(),
{
    if entries.len() == 0 {
        None
    } else if !in_sample(rows, entries[0].0@) {
        Some(entries[0].0@)
    } else {
        first_outside(entries.drop_first(), rows)
    }
}

/// The first adjudicated non-merge SHA the first rater left blank.
pub open spec fn first_unsettled(
    adj: Seq<(String, String)>,
    first: Seq<(String, String)>,
    rows: Seq<ScoreRow>,
    merge: Seq<bool>,
) -> Option<Seq<char>>
    decreases adj.len(),
{
    if adj.len() == 0 {
        None
    } else if !merge_sha(rows, merge, adj[0].0@) && label_in(first, adj[0].0@) is None {
        Some(adj[0].0@)
    } else {
        first_unsettled(adj.drop_first(), first, rows, merge)
    }
}

/// Positions of the non-merge rows among the first `n`.
pub open spec fn kept_rows(merge: Seq<bool>, n: int) -> Seq<usize>
    decreases n,
{
    if n <= 0 {
        Seq::empty()
    } else if !merge[n - 1] {
        kept_rows(merge, n - 1).push((n - 1) as usize)
    } else {
        kept_rows(merge, n - 1)
    }
}

/// Number of merge rows among the first `n`.
pub open spec fn merge_count(merge: Seq<bool>, n: int) -> nat
    decreases n,
{
    if n <= 0 {
        0
    } else {
        merge_count(merge, n - 1) + if merge[n - 1] {
            1nat
        } else {
            0nat
        }
    }
}

/// The final label of row `i`: none for a merge SHA, else the adjudicated
/// one, else the first rater's.
pub open spec fn final_label(
    rows: Seq<ScoreRow>,
    merge: Seq<bool>,
    first: Seq<(String, String)>,
    adj: Seq<(String, String)>,
    i: int,
) -> Option<Seq<char>> {
    let sha = rows[i].sha@;
    if merge_sha(rows, merge, sha) {
        None
    } else {
        match label_in(adj, sha) {
            Some(l) => Some(l),
            None => label_in(first, sha),
        }
    }
}

/// How a final label scores against the prediction.
pub open spec fn outcome_of(label: Option<Seq<char>>, predicted: Seq<char>) -> Option<Option<bool>> {
    match label {
        None => None,
        Some(l) => Some(
            if no_answer(l) {
                None
            } else {
                Some(eq_ignore_ascii_case(l, predicted))
            },
        ),
    }
}

/// Optional strings by view.
pub open spec fn opt_view(o: Option<String>) -> Option<Seq<char>> {
    match o {
        Some(s) => Some(s@),
        None => None,
    }
}

/// Final labels among the first `n` that are present.
pub open spec fn count_labelled(fs: Seq<Option<Seq<char>>>, n: int) -> nat
    decreases n,
{
    if n <= 0 {
        0
    } else {
        count_labelled(fs, n - 1) + if fs[n - 1] is Some {
            1nat
        } else {
            0nat
        }
    }
}

/// Final labels among the first `n` equal to `l`.
pub open spec fn count_label(fs: Seq<Option<Seq<char>>>, l: Seq<char>, n: int) -> nat
    decreases n,
{
    if n <= 0 {
        0
    } else {
        count_label(fs, l, n - 1) + if fs[n - 1] == Some(l) {
            1nat
        } else {
            0nat
        }
    }
}

/// Outcomes among the first `n` scored right or wrong.
pub open spec fn count_scored(os: Seq<Option<Option<bool>>>, n: int) -> nat
    decreases n,
{
    if n <= 0 {
        0
    } else {
        count_scored(os, n - 1) + if os[n - 1] matches Some(Some(_)) {
            1nat
        } else {
            0nat
        }
    }
}

/// First-rater entries among the first `n` that the second rater labelled
/// differently, outside merges and adjudication.
pub open spec fn unresolved_count(
    first: Seq<(String, String)>,
    second: Seq<(String, String)>,
    adj: Seq<(String, String)>,
    rows: Seq<ScoreRow>,
    merge: Seq<bool>,
    n: int,
) -> nat
    decreases n,
{
    if n <= 0 {
        0
    } else {
        let e = first[n - 1];
        unresolved_count(first, second, adj, rows, merge, n - 1) + if !merge_sha(rows, merge, e.0@)
            && label_in(adj, e.0@) is None && (label_in(second, e.0@) matches Some(b) && b != e.1@) {
            1nat
        } else {
            0nat
        }
    }
}

/// The `(key, outcome)` rows of the scored kept rows among the first `n`,
/// keyed by `field` (0 rule id, 1 method, 2 stratum).
pub open spec fn keyed(
    rows: Seq<ScoreRow>,
    kept: Seq<usize>,
    os: Seq<Option<Option<bool>>>,
    field: int,
    n: int,
) -> Seq<(Seq<char>, Option<bool>)>
    decreases n,
{
    if n <= 0 {
        Seq::empty()
    } else {
        let prev = keyed(rows, kept, os, field, n - 1);
        let r = rows[kept[n - 1] as int];
        let key = if field == 0 {
            r.rule_id@
        } else if field == 1 {
            r.method@
        } else {
            r.stratum@
        };
        match os[n - 1] {
            Some(o) => prev.push((key, o)),
            None => prev,
        }
    }
}

fn label_of(m: &Vec<(String, String)>, sha: &str) -> (r: Option<String>)
    ensures
        opt_view(r) == label_in(m@, sha@),
{
    let mut i: usize = 0;
    assert(m@.skip(0) =~= m@);
    while i < m.len()
        invariant
            i <= m.len(),
            label_in(m@, sha@) == label_in(m@.skip(i as int), sha@),
        decreases m.len() - i,
    {
        assert(m@.skip(i as int).drop_first() =~= m@.skip(i as int + 1));
        if str_eq(m[i].0.as_str(), sha) {
            return Some(String::from_str(m[i].1.as_str()));
        }
        i = i + 1;
    }
    None
}

fn holds_sha(rows: &[ScoreRow], sha: &str) -> (r: bool)
    ensures
        r == in_sample(rows@, sha@),
{
    let mut i: usize = 0;
    while i < rows.len()
        invariant
            i <= rows.len(),
            forall|k: int| 0 <= k < i ==> #[trigger] rows@[k].sha@ != sha@,
        decreases rows.len() - i,
    {
        if str_eq(rows[i].sha.as_str(), sha) {
            return true;
        }
        i = i + 1;
    }
    false
}

fn is_merge_sha(rows: &[ScoreRow], merge: &[bool], sha: &str) -> (r: bool)
    requires
        merge.len() == rows.len(),
    ensures
        r == merge_sha(rows@, merge@, sha@),
{
    let mut i: usize = 0;
    while i < rows.len()
        invariant
            i <= rows.len(),
            merge.len() == rows.len(),
            forall|k: int| 0 <= k < i ==> !(merge@[k] && #[trigger] rows@[k].sha@ == sha@),
        decreases rows.len() - i,
    {
        if merge[i] && str_eq(rows[i].sha.as_str(), sha) {
            return true;
        }
        i = i + 1;
    }
    false
}

proof fn lemma_flat_push(maps: Seq<Vec<(String, String)>>, k: int)
    requires
        0 <= k < maps.len(),
    ensures
        flat(maps.take(k + 1)) == flat(maps.take(k)) + maps[k]@,
{
    assert(maps.take(k + 1).drop_last() =~= maps.take(k));
}

/// The first entry, over every rater in order, whose SHA is outside the
/// sample.
fn find_outside(raters: &[Vec<(String, String)>], rows: &[ScoreRow]) -> (r: Option<String>)
    ensures
        opt_view(r) == first_outside(flat(raters@), rows@),
{
    let ghost all = flat(raters@);
    let mut k: usize = 0;
    assert(flat(raters@.take(0)) =~= Seq::<(String, String)>::empty());
    while k < raters.len()
        invariant
            k <= raters.len(),
            all == flat(raters@),
            first_outside(flat(raters@.take(k as int)), rows@) is None,
        decreases raters.len() - k,
    {
        let m = &raters[k];
        let mut i: usize = 0;
        proof {
            lemma_flat_push(raters@, k as int);
        }
        let ghost before = flat(raters@.take(k as int));
        while i < m.len()
            invariant
                i <= m.len(),
                k < raters.len(),
                m@ == raters@[k as int]@,
                before == flat(raters@.take(k as int)),
                flat(raters@.take(k as int + 1)) == before + m@,
                first_outside(before, rows@) is None,
                forall|q: int| 0 <= q < i ==> in_sample(rows@, #[trigger] m@[q].0@),
            decreases m.len() - i,
        {
            if !holds_sha(rows, m[i].0.as_str()) {
                proof {
                    lemma_first_outside_at(before, m@, i as int, rows@);
                    lemma_flat_split(raters@, k as int + 1);
                    lemma_first_outside_some(before + m@, flat(raters@.skip(k as int + 1)), rows@);
                }
                return Some(String::from_str(m[i].0.as_str()));
            }
            i = i + 1;
        }
        proof {
            lemma_first_outside_none(before, m@, rows@);
        }
        k = k + 1;
    }
    assert(raters@.take(raters.len() as int) =~= raters@);
    None
}

proof fn lemma_flat_split(maps: Seq<Vec<(String, String)>>, j: int)
    requires
        0 <= j <= maps.len(),
    ensures
        flat(maps) == flat(maps.take(j)) + flat(maps.skip(j)),
    decreases maps.len(),
{
    if j == maps.len() {
        assert(maps.take(j) =~= maps);
        assert(maps.skip(j) =~= Seq::<Vec<(String, String)>>::empty());
        assert(flat(maps.take(j)) + flat(maps.skip(j)) =~= flat(maps));
    } else {
        let dl = maps.drop_last();
        lemma_flat_split(dl, j);
        assert(dl.take(j) =~= maps.take(j));
        assert(maps.skip(j).drop_last() =~= dl.skip(j));
        assert(maps.skip(j).last() == maps.last());
        assert(flat(maps) =~= flat(maps.take(j)) + flat(maps.skip(j)));
    }
}

proof fn lemma_first_outside_some(a: Seq<(String, String)>, b: Seq<(String, String)>, rows: Seq<ScoreRow>)
    requires
        first_outside(a, rows) is Some,
    ensures
        first_outside(a + b, rows) == first_outside(a, rows),
    decreases a.len(),
{
    assert((a + b)[0] == a[0]);
    if in_sample(rows, a[0].0@) {
        assert((a + b).drop_first() =~= a.drop_first() + b);
        lemma_first_outside_some(a.drop_first(), b, rows);
    }
}

proof fn lemma_first_outside_cat(a: Seq<(String, String)>, b: Seq<(String, String)>, rows: Seq<ScoreRow>)
    requires
        first_outside(a, rows) is None,
    ensures
        first_outside(a + b, rows) == first_outside(b, rows),
    decreases a.len(),
{
    if a.len() > 0 {
        assert((a + b).drop_first() =~= a.drop_first() + b);
        lemma_first_outside_cat(a.drop_first(), b, rows);
    } else {
        assert(a + b =~= b);
    }
}

proof fn lemma_first_outside_prefix(m: Seq<(String, String)>, i: int, rows: Seq<ScoreRow>)
    requires
        0 <= i <= m.len(),
        forall|q: int| 0 <= q < i ==> in_sample(rows, #[trigger] m[q].0@),
    ensures
        first_outside(m, rows) == first_outside(m.skip(i), rows),
    decreases i,
{
    if i > 0 {
        assert(in_sample(rows, m[0].0@));
        let t = m.drop_first();
        assert forall|q: int| 0 <= q < i - 1 implies in_sample(rows, #[trigger] t[q].0@) by {
            assert(t[q] == m[q + 1]);
        }
        lemma_first_outside_prefix(t, i - 1, rows);
        assert(t.skip(i - 1) =~= m.skip(i));
    } else {
        assert(m.skip(0) =~= m);
    }
}

proof fn lemma_first_outside_at(before: Seq<(String, String)>, m: Seq<(String, String)>, i: int, rows: Seq<ScoreRow>)
    requires
        first_outside(before, rows) is None,
        0 <= i < m.len(),
        forall|q: int| 0 <= q < i ==> in_sample(rows, #[trigger] m[q].0@),
        !in_sample(rows, m[i].0@),
    ensures
        first_outside(before + m, rows) == Some(m[i].0@),
{
    lemma_first_outside_cat(before, m, rows);
    lemma_first_outside_prefix(m, i, rows);
    assert(m.skip(i)[0] == m[i]);
}

proof fn lemma_first_outside_none(before: Seq<(String, String)>, m: Seq<(String, String)>, rows: Seq<ScoreRow>)
    requires
        first_outside(before, rows) is None,
        forall|q: int| 0 <= q < m.len() ==> in_sample(rows, #[trigger] m[q].0@),
    ensures
        first_outside(before + m, rows) is None,
{
    lemma_first_outside_cat(before, m, rows);
    lemma_first_outside_prefix(m, m.len() as int, rows);
    assert(m.skip(m.len() as int) =~= Seq::<(String, String)>::empty());
}

/// `(lower-cased predicted, final label)` of the labelled kept rows among
/// the first `n`.
pub open spec fn confusion_pairs(
    rows: Seq<ScoreRow>,
    kept: Seq<usize>,
    fs: Seq<Option<Seq<char>>>,
    n: int,
) -> Seq<(Seq<char>, Seq<char>)>
    decreases n,
{
    if n <= 0 {
        Seq::empty()
    } else {
        let prev = confusion_pairs(rows, kept, fs, n - 1);
        match fs[n - 1] {
            Some(l) => prev.push((unicode_lowercase(rows[kept[n - 1] as int].predicted@), l)),
            None => prev,
        }
    }
}

/// The final labels of the kept rows, in order.
pub open spec fn finals_of(
    rows: Seq<ScoreRow>,
    merge: Seq<bool>,
    first: Seq<(String, String)>,
    adj: Seq<(String, String)>,
) -> Seq<Option<Seq<char>>> {
    let kept = kept_rows(merge, rows.len() as int);
    Seq::new(kept.len(), |k: int| final_label(rows, merge, first, adj, kept[k] as int))
}

/// The outcomes of the kept rows, in order.
pub open spec fn outcomes_of(
    rows: Seq<ScoreRow>,
    merge: Seq<bool>,
    first: Seq<(String, String)>,
    adj: Seq<(String, String)>,
) -> Seq<Option<Option<bool>>> {
    let kept = kept_rows(merge, rows.len() as int);
    Seq::new(
        kept.len(),
        |k: int| outcome_of(finals_of(rows, merge, first, adj)[k], rows[kept[k] as int].predicted@),
    )
}

/// What scoring tallies when nothing is refused.
pub open spec fn tallied(
    t: ScoreTallies,
    rows: Seq<ScoreRow>,
    merge: Seq<bool>,
    raters: Seq<Vec<(String, String)>>,
    adj: Seq<(String, String)>,
) -> bool {
    let first = raters[0]@;
    let kept = kept_rows(merge, rows.len() as int);
    let fs = finals_of(rows, merge, first, adj);
    let os = outcomes_of(rows, merge, first, adj);
    let n = kept.len() as int;
    &&& t.sample_size == rows.len()
    &&& t.merges_excluded == merge_count(merge, rows.len() as int)
    &&& t.kept@ == kept
    &&& t.finals.len() == n
    &&& forall|k: int| 0 <= k < n ==> opt_view(#[trigger] t.finals@[k]) == fs[k]
    &&& t.outcomes@ == os
    &&& t.labelled == count_labelled(fs, n)
    &&& t.scored == count_scored(os, n)
    &&& t.unclear == count_label(fs, "unclear"@, n)
    &&& t.mixed == count_label(fs, "mixed"@, n)
    &&& t.release_merge == count_label(fs, "release_merge"@, n)
    &&& t.unresolved == if raters.len() == 2 {
        unresolved_count(first, raters[1]@, adj, rows, merge, first.len() as int)
    } else {
        0
    }
    &&& tallies_of(t.per_rule@, keyed(rows, kept, os, 0, n))
    &&& tallies_of(t.per_method@, keyed(rows, kept, os, 1, n))
    &&& tallies_of(t.per_stratum@, keyed(rows, kept, os, 2, n))
    &&& counts_pairs(t.confusion@, confusion_pairs(rows, kept, fs, n))
}

/// A second rater file never changes the scores: the tallies of a run with
/// raters `[A, B]` are those of the run with `[A]` alone, but for the count
/// of unresolved disagreements (which a single rater leaves at zero).
pub proof fn lemma_second_rater_changes_no_score(
    t: ScoreTallies,
    rows: Seq<ScoreRow>,
    merge: Seq<bool>,
    one: Seq<Vec<(String, String)>>,
    two: Seq<Vec<(String, String)>>,
    adj: Seq<(String, String)>,
)
    requires
        one.len() == 1,
        two.len() == 2,
        two[0]@ == one[0]@,
        tallied(t, rows, merge, two, adj),
    ensures
        tallied(ScoreTallies { unresolved: 0, ..t }, rows, merge, one, adj),
{
}

proof fn lemma_rows_view_push(v: Seq<(String, Option<bool>)>, x: (String, Option<bool>))
    ensures
        rows_view(v.push(x)) == rows_view(v).push((x.0@, x.1)),
{
    assert(rows_view(v.push(x)) =~= rows_view(v).push((x.0@, x.1)));
}

/// Score a labelled sample: `rows` with their merge flags, one or two
/// rater label maps (`(sha, label)`, labels already checked against the
/// vocabulary) and the adjudicated map. Refused, in this order: not one or
/// two rater maps; a labelled SHA outside the sample (raters in order,
/// then adjudication); an adjudicated non-merge SHA the first rater left
/// blank. Otherwise the tallies of [`tallied`].
pub fn score_tallies(
    rows: &[ScoreRow],
    merge: &[bool],
    raters: &[Vec<(String, String)>],
    adjudicated: &Vec<(String, String)>,
) -> (r: Result<ScoreTallies, ScoreError>)
    requires
        merge.len() == rows.len(),
    ensures
        (raters.len() == 0 || raters.len() > 2) ==> r == Err::<ScoreTallies, ScoreError>(
            ScoreError::LabelFileCount(raters.len() as usize),
        ),
        !(raters.len() == 0 || raters.len() > 2) ==> match first_outside(flat(raters@) + adjudicated@, rows@) {
            Some(sha) => (r matches Err(ScoreError::OutsideSample(x)) && x@ == sha),
            None => match first_unsettled(adjudicated@, raters@[0]@, rows@, merge@) {
                Some(sha) => (r matches Err(ScoreError::AdjudicatedBlank(x)) && x@ == sha),
                None => (r matches Ok(t) && tallied(t, rows@, merge@, raters@, adjudicated@)),
            },
        },
{
    if raters.len() == 0 || raters.len() > 2 {
        return Err(ScoreError::LabelFileCount(raters.len()));
    }
    // every labelled SHA is in the sample
    let outside = find_outside(raters, rows);
    match outside {
        Some(sha) => {
            proof {
                lemma_first_outside_some(flat(raters@), adjudicated@, rows@);
            }
            return Err(ScoreError::OutsideSample(sha));
        },
        None => {},
    }
    let adj_outside = map_outside(adjudicated, rows);
    proof {
        lemma_first_outside_cat(flat(raters@), adjudicated@, rows@);
    }
    match adj_outside {
        Some(sha) => {
            return Err(ScoreError::OutsideSample(sha));
        },
        None => {},
    }
    let first = &raters[0];
    // adjudication settles the first rater's rows only
    let mut a: usize = 0;
    assert(adjudicated@.skip(0) =~= adjudicated@);
    while a < adjudicated.len()
        invariant
            a <= adjudicated.len(),
            merge.len() == rows.len(),
            1 <= raters.len() <= 2,
            first@ == raters@[0]@,
            first_outside(flat(raters@) + adjudicated@, rows@) is None,
            first_unsettled(adjudicated@, first@, rows@, merge@) == first_unsettled(
                adjudicated@.skip(a as int),
                first@,
                rows@,
                merge@,
            ),
        decreases adjudicated.len() - a,
    {
        assert(adjudicated@.skip(a as int).drop_first() =~= adjudicated@.skip(a as int + 1));
        assert(adjudicated@.skip(a as int)[0] == adjudicated@[a as int]);
        let sha = adjudicated[a].0.as_str();
        if !is_merge_sha(rows, merge, sha) && label_of(first, sha).is_none() {
            return Err(ScoreError::AdjudicatedBlank(String::from_str(sha)));
        }
        a = a + 1;
    }
    assert(adjudicated@.skip(a as int) =~= Seq::<(String, String)>::empty());
    // kept rows and merges
    let mut kept: Vec<usize> = Vec::new();
    let mut merges: usize = 0;
    let mut i: usize = 0;
    while i < rows.len()
        invariant
            i <= rows.len(),
            merge.len() == rows.len(),
            kept@ == kept_rows(merge@, i as int),
            merges == merge_count(merge@, i as int),
            merges <= i,
            forall|q: int| 0 <= q < kept.len() ==> #[trigger] kept@[q] < i,
        decreases rows.len() - i,
    {
        if merge[i] {
            merges = merges + 1;
        } else {
            kept.push(i);
        }
        i = i + 1;
    }
    let ghost fs = finals_of(rows@, merge@, first@, adjudicated@);
    let ghost os = outcomes_of(rows@, merge@, first@, adjudicated@);
    let n = kept.len();
    let mut finals: Vec<Option<String>> = Vec::new();
    let mut outcomes: Vec<Option<Option<bool>>> = Vec::new();
    let mut labelled: usize = 0;
    let mut scored: usize = 0;
    let mut unclear: usize = 0;
    let mut mixed: usize = 0;
    let mut release_merge: usize = 0;
    let mut by_rule: Vec<(String, Option<bool>)> = Vec::new();
    let mut by_method: Vec<(String, Option<bool>)> = Vec::new();
    let mut by_stratum: Vec<(String, Option<bool>)> = Vec::new();
    let mut pairs: Vec<(String, String)> = Vec::new();
    let mut k: usize = 0;
    while k < n
        invariant
            k <= n,
            n == kept.len(),
            merge.len() == rows.len(),
            kept@ == kept_rows(merge@, rows.len() as int),
            forall|q: int| 0 <= q < kept.len() ==> #[trigger] kept@[q] < rows.len(),
            first@ == raters@[0]@,
            fs == finals_of(rows@, merge@, first@, adjudicated@),
            os == outcomes_of(rows@, merge@, first@, adjudicated@),
            finals.len() == k,
            forall|q: int| 0 <= q < k ==> opt_view(#[trigger] finals@[q]) == fs[q],
            outcomes@ == os.take(k as int),
            labelled == count_labelled(fs, k as int),
            scored == count_scored(os, k as int),
            unclear == count_label(fs, "unclear"@, k as int),
            mixed == count_label(fs, "mixed"@, k as int),
            release_merge == count_label(fs, "release_merge"@, k as int),
            labelled <= k,
            scored <= k,
            unclear <= k,
            mixed <= k,
            release_merge <= k,
            rows_view(by_rule@) == keyed(rows@, kept@, os, 0, k as int),
            rows_view(by_method@) == keyed(rows@, kept@, os, 1, k as int),
            rows_view(by_stratum@) == keyed(rows@, kept@, os, 2, k as int),
            pair_views(pairs@) == confusion_pairs(rows@, kept@, fs, k as int),
        decreases n - k,
    {
        let row = &rows[kept[k]];
        let sha = row.sha.as_str();
        let fin: Option<String> = if is_merge_sha(rows, merge, sha) {
            None
        } else {
            match label_of(adjudicated, sha) {
                Some(l) => Some(l),
                None => label_of(first, sha),
            }
        };
        assert(opt_view(fin) == fs[k as int]);
        let out: Option<Option<bool>> = match &fin {
            None => None,
            Some(l) => Some(label_outcome(l.as_str(), row.predicted.as_str())),
        };
        assert(out == os[k as int]);
        proof {
            reveal_strlit("unclear");
            reveal_strlit("mixed");
            reveal_strlit("release_merge");
        }
        match &fin {
            Some(l) => {
                let ghost pp = pairs@;
                pairs.push((to_lowercase(row.predicted.as_str()), String::from_str(l.as_str())));
                assert(pair_views(pairs@) =~= pair_views(pp).push((unicode_lowercase(row.predicted@), l@)));
                labelled = labelled + 1;
                if str_eq(l.as_str(), "unclear") {
                    unclear = unclear + 1;
                }
                if str_eq(l.as_str(), "mixed") {
                    mixed = mixed + 1;
                }
                if str_eq(l.as_str(), "release_merge") {
                    release_merge = release_merge + 1;
                }
            },
            None => {},
        }
        match out {
            Some(o) => {
                if o.is_some() {
                    scored = scored + 1;
                }
                let ghost pr = by_rule@;
                let ghost pm = by_method@;
                let ghost ps = by_stratum@;
                let e1 = (String::from_str(row.rule_id.as_str()), o);
                let e2 = (String::from_str(row.method.as_str()), o);
                let e3 = (String::from_str(row.stratum.as_str()), o);
                by_rule.push(e1);
                by_method.push(e2);
                by_stratum.push(e3);
                proof {
                    lemma_rows_view_push(pr, e1);
                    lemma_rows_view_push(pm, e2);
                    lemma_rows_view_push(ps, e3);
                }
            },
            None => {},
        }
        finals.push(fin);
        outcomes.push(out);
        proof {
            assert(os.take(k as int + 1) =~= os.take(k as int).push(os[k as int]));
        }
        k = k + 1;
    }
    assert(os.take(n as int) =~= os);
    // unresolved disagreements
    let mut unresolved: usize = 0;
    if raters.len() == 2 {
        let second = &raters[1];
        let mut j: usize = 0;
        while j < first.len()
            invariant
                j <= first.len(),
                merge.len() == rows.len(),
                unresolved == unresolved_count(first@, second@, adjudicated@, rows@, merge@, j as int),
                unresolved <= j,
            decreases first.len() - j,
        {
            let sha = first[j].0.as_str();
            if !is_merge_sha(rows, merge, sha) && label_of(adjudicated, sha).is_none() {
                match label_of(second, sha) {
                    Some(b) => {
                        if !str_eq(b.as_str(), first[j].1.as_str()) {
                            unresolved = unresolved + 1;
                        }
                    },
                    None => {},
                }
            }
            j = j + 1;
        }
    }
    let per_rule = count_outcomes(by_rule.as_slice());
    let per_method = count_outcomes(by_method.as_slice());
    let per_stratum = count_outcomes(by_stratum.as_slice());
    let confusion = count_pairs(&pairs);
    Ok(
        ScoreTallies {
            sample_size: rows.len(),
            merges_excluded: merges,
            kept,
            finals,
            outcomes,
            labelled,
            scored,
            unclear,
            mixed,
            release_merge,
            unresolved,
            per_rule,
            per_method,
            per_stratum,
            confusion,
        },
    )
}

/// The first entry of one map whose SHA is outside the sample.
fn map_outside(m: &Vec<(String, String)>, rows: &[ScoreRow]) -> (r: Option<String>)
    ensures
        opt_view(r) == first_outside(m@, rows@),
{
    let mut i: usize = 0;
    while i < m.len()
        invariant
            i <= m.len(),
            forall|q: int| 0 <= q < i ==> in_sample(rows@, #[trigger] m@[q].0@),
        decreases m.len() - i,
    {
        if !holds_sha(rows, m[i].0.as_str()) {
            proof {
                lemma_first_outside_prefix(m@, i as int, rows@);
                assert(m@.skip(i as int)[0] == m@[i as int]);
            }
            return Some(String::from_str(m[i].0.as_str()));
        }
        i = i + 1;
    }
    proof {
        lemma_first_outside_prefix(m@, m.len() as int, rows@);
        assert(m@.skip(m.len() as int) =~= Seq::<(String, String)>::empty());
    }
    None
}

/// `(predicted, label)` pairs as plain values.
pub open spec fn pair_views(v: Seq<(String, String)>) -> Seq<(Seq<char>, Seq<char>)> {
    Seq::new(v.len(), |i: int| (v[i].0@, v[i].1@))
}

/// How many of `pairs` equal `p`.
pub open spec fn pair_count(pairs: Seq<(Seq<char>, Seq<char>)>, p: (Seq<char>, Seq<char>)) -> nat
    decreases pairs.len(),
{
    if pairs.len() == 0 {
        0
    } else {
        pair_count(pairs.drop_last(), p) + if pairs.last() == p {
            1nat
        } else {
            0nat
        }
    }
}

/// `cells` counts `pairs` exactly: each pair that occurs has one cell with
/// its count, and every cell is such a pair.
pub open spec fn counts_pairs(cells: Seq<(String, String, usize)>, pairs: Seq<(Seq<char>, Seq<char>)>) -> bool {
    &&& forall|i: int, j: int|
        0 <= i < j < cells.len() ==> (#[trigger] cells[i].0@, cells[i].1@) != (#[trigger] cells[j].0@, cells[j].1@)
    &&& forall|i: int|
        0 <= i < cells.len() ==> #[trigger] cells[i].2 as nat == pair_count(pairs, (cells[i].0@, cells[i].1@))
            && cells[i].2 > 0
    &&& forall|p: (Seq<char>, Seq<char>)|
        pair_count(pairs, p) > 0 ==> exists|i: int| 0 <= i < cells.len() && (#[trigger] cells[i].0@, cells[i].1@) == p
}

proof fn lemma_pair_count_bound(pairs: Seq<(Seq<char>, Seq<char>)>, p: (Seq<char>, Seq<char>))
    ensures
        pair_count(pairs, p) <= pairs.len(),
    decreases pairs.len(),
{
    if pairs.len() > 0 {
        lemma_pair_count_bound(pairs.drop_last(), p);
    }
}

/// Count equal `(predicted, label)` pairs: the confusion cells, in order
/// of first appearance.
pub fn count_pairs(pairs: &Vec<(String, String)>) -> (cells: Vec<(String, String, usize)>)
    ensures
        counts_pairs(cells@, pair_views(pairs@)),
{
    let ghost pv = pair_views(pairs@);
    let mut cells: Vec<(String, String, usize)> = Vec::new();
    let mut i: usize = 0;
    while i < pairs.len()
        invariant
            i <= pairs.len(),
            pv == pair_views(pairs@),
            counts_pairs(cells@, pv.take(i as int)),
        decreases pairs.len() - i,
    {
        let ghost pre = pv.take(i as int);
        let ghost next = pv.take(i as int + 1);
        let ghost cur = pv[i as int];
        assert(next.drop_last() =~= pre);
        assert(next.last() == cur);
        let mut j: usize = 0;
        let mut hit = false;
        while !hit && j < cells.len()
            invariant
                j <= cells.len(),
                i < pairs.len(),
                cur == (pairs@[i as int].0@, pairs@[i as int].1@),
                hit ==> j < cells.len() && (cells@[j as int].0@, cells@[j as int].1@) == cur,
                !hit ==> forall|q: int| 0 <= q < j ==> (#[trigger] cells@[q].0@, cells@[q].1@) != cur,
            decreases cells.len() - j + if hit { 0int } else { 1int },
        {
            if str_eq(cells[j].0.as_str(), pairs[i].0.as_str()) && str_eq(cells[j].1.as_str(), pairs[i].1.as_str()) {
                hit = true;
            } else {
                j = j + 1;
            }
        }
        let ghost old_cells = cells@;
        proof {
            lemma_pair_count_bound(pre, cur);
        }
        if hit {
            let c = cells[j].2;
            assert(c as nat == pair_count(pre, cur));
            let cell = (String::from_str(cells[j].0.as_str()), String::from_str(cells[j].1.as_str()), c + 1);
            cells.set(j, cell);
            proof {
                assert forall|p: (Seq<char>, Seq<char>)| pair_count(next, p) > 0 implies exists|q: int|
                    0 <= q < cells@.len() && (#[trigger] cells@[q].0@, cells@[q].1@) == p by {
                    if p == cur {
                        assert((cells@[j as int].0@, cells@[j as int].1@) == p);
                    } else {
                        assert(pair_count(next, p) == pair_count(pre, p));
                        assert(pair_count(pre, p) > 0);
                        let q = choose|q: int| 0 <= q < old_cells.len() && (#[trigger] old_cells[q].0@, old_cells[q].1@) == p;
                        assert((cells@[q].0@, cells@[q].1@) == p);
                    }
                }
                assert forall|a: int, b: int| 0 <= a < b < cells@.len() implies (#[trigger] cells@[a].0@, cells@[a].1@)
                    != (#[trigger] cells@[b].0@, cells@[b].1@) by {
                    assert((cells@[a].0@, cells@[a].1@) == (old_cells[a].0@, old_cells[a].1@));
                    assert((cells@[b].0@, cells@[b].1@) == (old_cells[b].0@, old_cells[b].1@));
                }
                assert forall|a: int| 0 <= a < cells@.len() implies #[trigger] cells@[a].2 as nat == pair_count(
                    next,
                    (cells@[a].0@, cells@[a].1@),
                ) && cells@[a].2 > 0 by {
                    if a != j {
                        assert((cells@[a].0@, cells@[a].1@) == (old_cells[a].0@, old_cells[a].1@));
                        assert(pair_count(next, (cells@[a].0@, cells@[a].1@)) == pair_count(pre, (cells@[a].0@, cells@[a].1@)));
                    } else {
                        assert(pair_count(next, cur) == pair_count(pre, cur) + 1);
                    }
                }
            }
        } else {
            let cell = (String::from_str(pairs[i].0.as_str()), String::from_str(pairs[i].1.as_str()), 1usize);
            cells.push(cell);
            proof {
                assert(pair_count(pre, cur) == 0) by {
                    if pair_count(pre, cur) > 0 {
                        let q = choose|q: int| 0 <= q < old_cells.len() && (#[trigger] old_cells[q].0@, old_cells[q].1@) == cur;
                        assert(false);
                    }
                }
                assert forall|p: (Seq<char>, Seq<char>)| pair_count(next, p) > 0 implies exists|q: int|
                    0 <= q < cells@.len() && (#[trigger] cells@[q].0@, cells@[q].1@) == p by {
                    if p == cur {
                        assert((cells@[old_cells.len() as int].0@, cells@[old_cells.len() as int].1@) == p);
                    } else {
                        assert(pair_count(next, p) == pair_count(pre, p));
                        assert(pair_count(pre, p) > 0);
                        let q = choose|q: int| 0 <= q < old_cells.len() && (#[trigger] old_cells[q].0@, old_cells[q].1@) == p;
                        assert((cells@[q].0@, cells@[q].1@) == p);
                    }
                }
                assert forall|a: int, b: int| 0 <= a < b < cells@.len() implies (#[trigger] cells@[a].0@, cells@[a].1@)
                    != (#[trigger] cells@[b].0@, cells@[b].1@) by {
                    if b == old_cells.len() {
                        assert((cells@[a].0@, cells@[a].1@) == (old_cells[a].0@, old_cells[a].1@));
                    }
                }
                assert forall|a: int| 0 <= a < cells@.len() implies #[trigger] cells@[a].2 as nat == pair_count(
                    next,
                    (cells@[a].0@, cells@[a].1@),
                ) && cells@[a].2 > 0 by {
                    if a < old_cells.len() {
                        assert((cells@[a].0@, cells@[a].1@) == (old_cells[a].0@, old_cells[a].1@));
                        assert((old_cells[a].0@, old_cells[a].1@) != cur);
                        assert(pair_count(next, (cells@[a].0@, cells@[a].1@)) == pair_count(pre, (cells@[a].0@, cells@[a].1@)));
                    } else {
                        assert(pair_count(next, cur) == pair_count(pre, cur) + 1);
                    }
                }
            }
        }
        i = i + 1;
    }
    assert(pv.take(pairs.len() as int) =~= pv);
    cells
}

/// A label cell that is neither blank nor a known label: the row's SHA as
/// written and the normalised label.
#[derive(Clone, Debug, PartialEq, Eq)]
pub struct UnknownLabel {
    /// SHA of the row, as written.
    pub sha: String,
    /// The label, trimmed and lower-cased.
    pub label: String,
}

/// Position of the entry for `key`, if any.
pub open spec fn key_index(m: Seq<(Seq<char>, Seq<char>)>, key: Seq<char>) -> Option<int>
    decreases m.len(),
{
    if m.len() == 0 {
        None
    } else if m.last().0 == key {
        Some(m.len() - 1)
    } else {
        key_index(m.drop_last(), key)
    }
}

/// `m` with `key` mapped to `value`: an existing entry is overwritten in
/// place, a new key is appended.
pub open spec fn map_insert(m: Seq<(Seq<char>, Seq<char>)>, key: Seq<char>, value: Seq<char>) -> Seq<
    (Seq<char>, Seq<char>),
> {
    match key_index(m, key) {
        Some(i) => m.update(i, (key, value)),
        None => m.push((key, value)),
    }
}

/// The label map of the first `n` label rows `(sha, label cell)`: blank
/// cells skipped, the SHA trimmed, the label normalised, a later row for
/// the same SHA winning; the first unknown label refuses the file.
pub open spec fn label_map_of(rows: Seq<(String, String)>, valid: Seq<String>, n: int) -> Result<
    Seq<(Seq<char>, Seq<char>)>,
    (Seq<char>, Seq<char>),
>
    decreases n,
{
    if n <= 0 {
        Ok(Seq::empty())
    } else {
        match label_map_of(rows, valid, n - 1) {
            Err(e) => Err(e),
            Ok(m) => {
                let l = normal_label(rows[n - 1].1@);
                if l.len() == 0 {
                    Ok(m)
                } else if exists|i: int| 0 <= i < valid.len() && #[trigger] valid[i]@ == l {
                    Ok(map_insert(m, trim(rows[n - 1].0@), l))
                } else {
                    Err((rows[n - 1].0@, l))
                }
            },
        }
    }
}

proof fn lemma_key_index_bounds(m: Seq<(Seq<char>, Seq<char>)>, key: Seq<char>)
    ensures
        key_index(m, key) matches Some(i) ==> 0 <= i < m.len() && m[i].0 == key,
    decreases m.len(),
{
    if m.len() > 0 && m.last().0 != key {
        lemma_key_index_bounds(m.drop_last(), key);
    }
}

proof fn lemma_refusal_stays(rows: Seq<(String, String)>, valid: Seq<String>, n: int, m: int)
    requires
        0 <= n <= m,
        label_map_of(rows, valid, n) is Err,
    ensures
        label_map_of(rows, valid, m) == label_map_of(rows, valid, n),
    decreases m - n,
{
    if m > n {
        lemma_refusal_stays(rows, valid, n, m - 1);
    }
}

fn find_key(m: &Vec<(String, String)>, key: &str) -> (r: Option<usize>)
    ensures
        match r {
            Some(i) => key_index(pair_views(m@), key@) == Some(i as int),
            None => key_index(pair_views(m@), key@) is None,
        },
{
    let ghost v = pair_views(m@);
    let mut i: usize = m.len();
    assert(v.take(i as int) =~= v);
    while i > 0
        invariant
            i <= m.len(),
            v == pair_views(m@),
            key_index(v, key@) == key_index(v.take(i as int), key@),
        decreases i,
    {
        assert(v.take(i as int).drop_last() =~= v.take(i as int - 1));
        if str_eq(m[i - 1].0.as_str(), key) {
            return Some(i - 1);
        }
        i = i - 1;
    }
    None
}

/// Read one rater's label rows `(sha, label cell)` into a label map (see
/// [`label_map_of`]), refusing the first label that is not in `valid`.
pub fn label_map(rows: &[(String, String)], valid: &[String]) -> (r: Result<Vec<(String, String)>, UnknownLabel>)
    ensures
        match label_map_of(rows@, valid@, rows.len() as int) {
            Ok(m) => r matches Ok(v) && pair_views(v@) == m,
            Err((sha, l)) => r matches Err(e) && e.sha@ == sha && e.label@ == l,
        },
{
    let mut out: Vec<(String, String)> = Vec::new();
    let mut i: usize = 0;
    assert(pair_views(out@) =~= Seq::<(Seq<char>, Seq<char>)>::empty());
    while i < rows.len()
        invariant
            i <= rows.len(),
            label_map_of(rows@, valid@, i as int) == Ok::<Seq<(Seq<char>, Seq<char>)>, (Seq<char>, Seq<char>)>(
                pair_views(out@),
            ),
        decreases rows.len() - i,
    {
        match check_label(rows[i].1.as_str(), valid) {
            LabelCheck::Blank => {},
            LabelCheck::Unknown(l) => {
                proof {
                    lemma_refusal_stays(rows@, valid@, i as int + 1, rows.len() as int);
                }
                return Err(UnknownLabel { sha: String::from_str(rows[i].0.as_str()), label: l });
            },
            LabelCheck::Known(l) => {
                let c = chars_of(rows[i].0.as_str());
                let t = trim_chars(c.as_slice());
                let sha = string_from_chars(t.as_slice());
                let ghost before = pair_views(out@);
                let found = find_key(&out, sha.as_str());
                proof {
                    lemma_key_index_bounds(before, sha@);
                }
                match found {
                    Some(k) => {
                        let key = String::from_str(sha.as_str());
                        out.set(k, (key, l));
                        assert(pair_views(out@) =~= before.update(k as int, (sha@, normal_label(rows@[i as int].1@))));
                    },
                    None => {
                        out.push((sha, l));
                        assert(pair_views(out@) =~= before.push((trim(rows@[i as int].0@), normal_label(rows@[i as int].1@))));
                    },
                }
            },
        }
        i = i + 1;
    }
    Ok(out)
}

} // verus!
