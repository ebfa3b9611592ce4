//! Scoring rater labels: which labels count as an answer, label checks, and
//! the per-group tallies precision is computed from.

use vstd::prelude::*;
use crate::text::{
    chars_eq_ignore_ascii_case, chars_less, chars_of, eq_ignore_ascii_case, lemma_str_less_total, lemma_str_less_trans, str_eq, str_less, string_from_chars,
    to_lowercase, trim, trim_chars, unicode_lowercase,
};

verus! {

/// Label meaning the rater could not decide.
pub const UNCLEAR: &'static str = "unclear";

/// Label meaning the commit spans several categories.
pub const MIXED: &'static str = "mixed";

/// Label for a release or merge commit.
pub const RELEASE_MERGE: &'static str = "release_merge";

/// Labels counted but scored as no answer, never as right or wrong.
pub open spec fn no_answer(label: Seq<char>) -> bool {
    label == "unclear"@ || label == "mixed"@ || label == "release_merge"@
}

/// Whether `label` is one of the no-answer labels.
pub fn is_no_answer(label: &str) -> (r: bool)
    ensures
        r == no_answer(label@),
{
    str_eq(label, UNCLEAR) || str_eq(label, MIXED) || str_eq(label, RELEASE_MERGE)
}

/// How a final label scores against the predicted category: no answer
/// for a no-answer label, else whether it names the prediction (ASCII case
/// ignored).
pub fn label_outcome(label: &str, predicted: &str) -> (r: Option<bool>)
    ensures
        r == if no_answer(label@) {
            None
        } else {
            Some(eq_ignore_ascii_case(label@, predicted@))
        },
{
    if is_no_answer(label) {
        None
    } else {
        let l = chars_of(label);
        let p = chars_of(predicted);
        Some(chars_eq_ignore_ascii_case(l.as_slice(), p.as_slice()))
    }
}

/// Inputs to a scoring run.
#[derive(Debug)]
pub struct ScoreParams {
    /// `sample.jsonl` from a sampling run.
    pub sample: std::path::PathBuf,
    /// `strata.json`; defaults to the file next to the sample.
    pub strata: Option<std::path::PathBuf>,
    /// One or two rater files (`sha`, `label`, optional `note`).
    pub labels: Vec<std::path::PathBuf>,
    /// Adjudicated labels; they win over the raters' where non-empty.
    pub adjudicated: Option<std::path::PathBuf>,
    /// Valid categories from a config; `None` uses those in `strata.json`.
    pub categories: Option<Vec<String>>,
    /// Database copy used to resolve the merge flag of sample rows that
    /// lack one; opened read-only.
    pub db: Option<std::path::PathBuf>,
    /// Output directory for `report.md` and `report.json`.
    pub out: std::path::PathBuf,
}

/// A rater's label after normalising.
#[derive(Clone, Debug, PartialEq, Eq)]
pub enum LabelCheck {
    /// The cell is blank: the row is unlabelled.
    Blank,
    /// A known label, normalised.
    Known(String),
    /// A label outside the vocabulary, normalised.
    Unknown(String),
}

/// The normal form of a label cell: trimmed, then lower-cased.
pub open spec fn normal_label(raw: Seq<char>) -> Seq<char> {
    unicode_lowercase(trim(raw))
}

/// Normalise a label cell and check it against `valid`: blank cells are
/// skipped, anything else must be one of `valid`.
pub fn check_label(raw: &str, valid: &[String]) -> (r: LabelCheck)
    ensures
        r is Blank <==> normal_label(raw@).len() == 0,
        r matches LabelCheck::Known(l) ==> l@ == normal_label(raw@)
            && exists|i: int| 0 <= i < valid@.len() && #[trigger] valid@[i]@ == normal_label(raw@),
        r matches LabelCheck::Unknown(l) ==> l@ == normal_label(raw@) && normal_label(raw@).len() > 0
            && forall|i: int| 0 <= i < valid@.len() ==> #[trigger] valid@[i]@ != normal_label(raw@),
{
    let c = chars_of(raw);
    let t = trim_chars(c.as_slice());
    let ts = string_from_chars(t.as_slice());
    let label = to_lowercase(ts.as_str());
    if label.as_str().is_empty() {
        return LabelCheck::Blank;
    }
    let mut i: usize = 0;
    while i < valid.len()
        invariant
            i <= valid.len(),
            label@ == normal_label(raw@),
            label@.len() > 0,
            forall|k: int| 0 <= k < i ==> #[trigger] valid@[k]@ != label@,
        decreases valid.len() - i,
    {
        if str_eq(valid[i].as_str(), label.as_str()) {
            return LabelCheck::Known(label);
        }
        i = i + 1;
    }
    LabelCheck::Unknown(label)
}

/// Tallies of one group (a rule, a method or a stratum).
#[derive(Clone, Debug, PartialEq, Eq)]
pub struct OutcomeCounts {
    /// Group key.
    pub key: String,
    /// Labelled commits scored (no-answer labels excluded).
    pub n: u64,
    /// Of those, labelled with the predicted category.
    pub correct: u64,
    /// No-answer labels in this group.
    pub excluded: u64,
}

/// The rows as plain values: group key and outcome (`None` for a
/// no-answer label).
pub open spec fn rows_view(rows: Seq<(String, Option<bool>)>) -> Seq<(Seq<char>, Option<bool>)> {
    Seq::new(rows.len(), |i: int| (rows[i].0@, rows[i].1))
}

/// Rows of group `key` whose outcome satisfies `pick`: 0 for none, 1 for
/// a scored row, 2 for a correct one, 3 for an excluded one.
pub open spec fn tally(rows: Seq<(Seq<char>, Option<bool>)>, key: Seq<char>, pick: int) -> nat
    decreases rows.len(),
{
    if rows.len() == 0 {
        0
    } else {
        let r = rows.last();
        let hit = r.0 == key && if pick == 1 {
            r.1 is Some
        } else if pick == 2 {
            r.1 == Some(true)
        } else {
            r.1 is None
        };
        tally(rows.drop_last(), key, pick) + if hit { 1nat } else { 0nat }
    }
}

proof fn lemma_tally_bound(rows: Seq<(Seq<char>, Option<bool>)>, key: Seq<char>, pick: int)
    ensures
        tally(rows, key, pick) <= rows.len(),
        (forall|j: int| 0 <= j < rows.len() ==> rows[j].0 != key) ==> tally(rows, key, pick) == 0,
    decreases rows.len(),
{
    if rows.len() > 0 {
        lemma_tally_bound(rows.drop_last(), key, pick);
        if forall|j: int| 0 <= j < rows.len() ==> rows[j].0 != key {
            assert forall|j: int| 0 <= j < rows.len() - 1 implies rows.drop_last()[j].0 != key by {
                assert(rows.drop_last()[j] == rows[j]);
            }
        }
    }
}

/// Keys strictly increasing.
#[verifier::opaque]
pub open spec fn sorted_keys(counts: Seq<OutcomeCounts>) -> bool {
    forall|a: int, b: int| 0 <= a < b < counts.len() ==> str_less(#[trigger] counts[a].key@, #[trigger] counts[b].key@)
}

/// Every key names some row.
#[verifier::opaque]
pub open spec fn keys_from_rows(counts: Seq<OutcomeCounts>, rows: Seq<(Seq<char>, Option<bool>)>) -> bool {
    forall|i: int| 0 <= i < counts.len() ==> exists|j: int| 0 <= j < rows.len() && rows[j].0 == #[trigger] counts[i].key@
}

/// Every row's key has a tally.
#[verifier::opaque]
pub open spec fn rows_have_keys(counts: Seq<OutcomeCounts>, rows: Seq<(Seq<char>, Option<bool>)>) -> bool {
    forall|j: int| 0 <= j < rows.len() ==> exists|i: int| 0 <= i < counts.len() && #[trigger] counts[i].key@ == #[trigger] rows[j].0
}

/// Each tally counts its key's rows.
#[verifier::opaque]
pub open spec fn exact_counts(counts: Seq<OutcomeCounts>, rows: Seq<(Seq<char>, Option<bool>)>) -> bool {
    forall|i: int| 0 <= i < counts.len() ==> {
        &&& #[trigger] counts[i].n == tally(rows, counts[i].key@, 1)
        &&& counts[i].correct == tally(rows, counts[i].key@, 2)
        &&& counts[i].excluded == tally(rows, counts[i].key@, 3)
    }
}

/// The tallies are sorted by key, hold each key of `rows` exactly once, and
/// count `rows`.
pub open spec fn tallies_of(counts: Seq<OutcomeCounts>, rows: Seq<(Seq<char>, Option<bool>)>) -> bool {
    &&& sorted_keys(counts)
    &&& keys_from_rows(counts, rows)
    &&& rows_have_keys(counts, rows)
    &&& exact_counts(counts, rows)
}

fn key_before(counts: &Vec<OutcomeCounts>, p: usize, key: &[char]) -> (r: bool)
    requires
        p < counts@.len(),
    ensures
        r == str_less(counts@[p as int].key@, key@),
{
    let ck = chars_of(counts[p].key.as_str());
    chars_less(ck.as_slice(), key)
}

proof fn lemma_tally_push(before: Seq<(Seq<char>, Option<bool>)>, row: (Seq<char>, Option<bool>), k: Seq<char>, pick: int)
    ensures
        k != row.0 ==> tally(before.push(row), k, pick) == tally(before, k, pick),
{
    assert(before.push(row).drop_last() =~= before);
}

/// Add one row to sorted tallies.
fn add_row(
    counts: &mut Vec<OutcomeCounts>,
    key_str: &str,
    outcome: Option<bool>,
    Ghost(before): Ghost<Seq<(Seq<char>, Option<bool>)>>,
)
    requires
        tallies_of(old(counts)@, before),
        before.len() < usize::MAX,
    ensures
        tallies_of(final(counts)@, before.push((key_str@, outcome))),
{
    let ghost after = before.push((key_str@, outcome));
    let key = chars_of(key_str);
    let mut p: usize = 0;
    while p < counts.len() && key_before(&counts, p, key.as_slice())
        invariant
            p <= counts@.len(),
            forall|q: int| 0 <= q < p ==> str_less(#[trigger] counts@[q].key@, key@),
        decreases counts@.len() - p,
    {
        p = p + 1;
    }
    let ghost old_counts = counts@;
    proof {
        lemma_tally_bound(before, key@, 1);
        lemma_tally_bound(before, key@, 2);
        lemma_tally_bound(before, key@, 3);
    }
    let found = p < counts.len() && str_eq(counts[p].key.as_str(), key_str);
    if found {
        proof {
            lemma_counts_bounded(old_counts, before, p as int);
        }
        let mut e = OutcomeCounts {
            key: String::from_str(counts[p].key.as_str()),
            n: counts[p].n,
            correct: counts[p].correct,
            excluded: counts[p].excluded,
        };
        match outcome {
            Some(correct) => {
                e.n = e.n + 1;
                if correct {
                    e.correct = e.correct + 1;
                }
            },
            None => {
                e.excluded = e.excluded + 1;
            },
        }
        counts.set(p, e);
        proof {
            lemma_found_keeps_tallies(old_counts, counts@, before, key@, outcome, p as int);
        }
    } else {
        let e = OutcomeCounts {
            key: String::from_str(key_str),
            n: match outcome {
                Some(_) => 1,
                None => 0,
            },
            correct: match outcome {
                Some(true) => 1,
                _ => 0,
            },
            excluded: match outcome {
                None => 1,
                _ => 0,
            },
        };
        counts.insert(p, e);
        proof {
            lemma_new_keeps_tallies(old_counts, counts@, before, key@, outcome, p as int);
        }
    }
}

proof fn lemma_counts_bounded(counts: Seq<OutcomeCounts>, rows: Seq<(Seq<char>, Option<bool>)>, p: int)
    requires
        exact_counts(counts, rows),
        0 <= p < counts.len(),
    ensures
        counts[p].n <= rows.len(),
        counts[p].correct <= rows.len(),
        counts[p].excluded <= rows.len(),
{
    reveal(exact_counts);
    assert(counts[p].n == tally(rows, counts[p].key@, 1));
    lemma_tally_bound(rows, counts[p].key@, 1);
    lemma_tally_bound(rows, counts[p].key@, 2);
    lemma_tally_bound(rows, counts[p].key@, 3);
}

proof fn lemma_sorted_distinct(counts: Seq<OutcomeCounts>, a: int, b: int)
    requires
        sorted_keys(counts),
        0 <= a < counts.len(),
        0 <= b < counts.len(),
        a != b,
    ensures
        counts[a].key@ != counts[b].key@,
{
    reveal(sorted_keys);
    if a < b {
        lemma_str_less_total(counts[a].key@, counts[b].key@);
    } else {
        lemma_str_less_total(counts[b].key@, counts[a].key@);
    }
}

proof fn lemma_tally_last(before: Seq<(Seq<char>, Option<bool>)>, key: Seq<char>, outcome: Option<bool>)
    ensures
        tally(before.push((key, outcome)), key, 1) == tally(before, key, 1) + if outcome is Some { 1int } else { 0int },
        tally(before.push((key, outcome)), key, 2) == tally(before, key, 2) + if outcome == Some(true) { 1int } else { 0int },
        tally(before.push((key, outcome)), key, 3) == tally(before, key, 3) + if outcome is None { 1int } else { 0int },
{
    assert(before.push((key, outcome)).drop_last() =~= before);
}

proof fn lemma_found_keeps_tallies(
    old_counts: Seq<OutcomeCounts>,
    counts: Seq<OutcomeCounts>,
    before: Seq<(Seq<char>, Option<bool>)>,
    key: Seq<char>,
    outcome: Option<bool>,
    p: int,
)
    requires
        tallies_of(old_counts, before),
        0 <= p < old_counts.len(),
        old_counts[p].key@ == key,
        counts.len() == old_counts.len(),
        forall|i: int| 0 <= i < counts.len() && i != p ==> counts[i] == old_counts[i],
        counts[p].key@ == key,
        counts[p].n == old_counts[p].n + if outcome is Some { 1int } else { 0int },
        counts[p].correct == old_counts[p].correct + if outcome == Some(true) { 1int } else { 0int },
        counts[p].excluded == old_counts[p].excluded + if outcome is None { 1int } else { 0int },
    ensures
        tallies_of(counts, before.push((key, outcome))),
{
    let after = before.push((key, outcome));
    assert forall|i: int| 0 <= i < counts.len() implies #[trigger] counts[i].key@ == old_counts[i].key@ by {}
    assert(sorted_keys(counts)) by {
        reveal(sorted_keys);
        assert forall|a: int, b: int| 0 <= a < b < counts.len() implies str_less(
            #[trigger] counts[a].key@,
            #[trigger] counts[b].key@,
        ) by {
            assert(str_less(old_counts[a].key@, old_counts[b].key@));
        }
    }
    assert(keys_from_rows(counts, after)) by {
        reveal(keys_from_rows);
        assert forall|i: int| 0 <= i < counts.len() implies exists|q: int|
            0 <= q < after.len() && after[q].0 == #[trigger] counts[i].key@ by {
            let q = choose|q: int| 0 <= q < before.len() && before[q].0 == old_counts[i].key@;
            assert(after[q] == before[q]);
        }
    }
    assert(rows_have_keys(counts, after)) by {
        reveal(rows_have_keys);
        assert forall|q: int| 0 <= q < after.len() implies exists|i: int|
            0 <= i < counts.len() && #[trigger] counts[i].key@ == #[trigger] after[q].0 by {
            if q < before.len() {
                assert(after[q] == before[q]);
                let i = choose|i: int| 0 <= i < old_counts.len() && #[trigger] old_counts[i].key@ == #[trigger] before[q].0;
                assert(counts[i].key@ == old_counts[i].key@);
            } else {
                assert(counts[p].key@ == after[q].0);
            }
        }
    }
    assert(exact_counts(counts, after)) by {
        reveal(exact_counts);
        lemma_tally_last(before, key, outcome);
        assert forall|i: int| 0 <= i < counts.len() implies {
            &&& #[trigger] counts[i].n == tally(after, counts[i].key@, 1)
            &&& counts[i].correct == tally(after, counts[i].key@, 2)
            &&& counts[i].excluded == tally(after, counts[i].key@, 3)
        } by {
            if i != p {
                lemma_sorted_distinct(old_counts, i, p);
                lemma_tally_push(before, (key, outcome), counts[i].key@, 1);
                lemma_tally_push(before, (key, outcome), counts[i].key@, 2);
                lemma_tally_push(before, (key, outcome), counts[i].key@, 3);
            }
        }
    }
}

proof fn lemma_new_key_absent(
    old_counts: Seq<OutcomeCounts>,
    before: Seq<(Seq<char>, Option<bool>)>,
    key: Seq<char>,
    p: int,
)
    requires
        tallies_of(old_counts, before),
        0 <= p <= old_counts.len(),
        forall|q: int| 0 <= q < p ==> str_less(#[trigger] old_counts[q].key@, key),
        p < old_counts.len() ==> !str_less(old_counts[p].key@, key) && old_counts[p].key@ != key,
    ensures
        forall|i: int| 0 <= i < old_counts.len() ==> #[trigger] old_counts[i].key@ != key,
        forall|q: int| 0 <= q < before.len() ==> before[q].0 != key,
        p < old_counts.len() ==> str_less(key, old_counts[p].key@),
{
    if p < old_counts.len() {
        lemma_str_less_total(old_counts[p].key@, key);
    }
    assert forall|i: int| 0 <= i < old_counts.len() implies #[trigger] old_counts[i].key@ != key by {
        lemma_str_less_total(key, key);
        if i > p {
            reveal(sorted_keys);
            assert(str_less(old_counts[p].key@, old_counts[i].key@));
            lemma_str_less_trans(key, old_counts[p].key@, old_counts[i].key@);
        }
    }
    assert forall|q: int| 0 <= q < before.len() implies before[q].0 != key by {
        reveal(rows_have_keys);
        let i = choose|i: int| 0 <= i < old_counts.len() && #[trigger] old_counts[i].key@ == #[trigger] before[q].0;
    }
}

proof fn lemma_new_keeps_tallies(
    old_counts: Seq<OutcomeCounts>,
    counts: Seq<OutcomeCounts>,
    before: Seq<(Seq<char>, Option<bool>)>,
    key: Seq<char>,
    outcome: Option<bool>,
    p: int,
)
    requires
        tallies_of(old_counts, before),
        0 <= p <= old_counts.len(),
        forall|q: int| 0 <= q < p ==> str_less(#[trigger] old_counts[q].key@, key),
        p < old_counts.len() ==> !str_less(old_counts[p].key@, key) && old_counts[p].key@ != key,
        counts == old_counts.insert(p, counts[p]),
        counts[p].key@ == key,
        counts[p].n == if outcome is Some { 1int } else { 0int },
        counts[p].correct == if outcome == Some(true) { 1int } else { 0int },
        counts[p].excluded == if outcome is None { 1int } else { 0int },
    ensures
        tallies_of(counts, before.push((key, outcome))),
{
    let after = before.push((key, outcome));
    lemma_new_key_absent(old_counts, before, key, p);
    assert(sorted_keys(counts)) by {
        reveal(sorted_keys);
        assert forall|a: int, b: int| 0 <= a < b < counts.len() implies str_less(
            #[trigger] counts[a].key@,
            #[trigger] counts[b].key@,
        ) by {
            if b < p {
                assert(counts[a] == old_counts[a] && counts[b] == old_counts[b]);
            } else if b == p {
                assert(counts[a] == old_counts[a]);
            } else if a < p {
                assert(counts[a] == old_counts[a] && counts[b] == old_counts[b - 1]);
                if b - 1 > p {
                    lemma_str_less_trans(key, old_counts[p].key@, old_counts[b - 1].key@);
                }
                lemma_str_less_trans(old_counts[a].key@, key, old_counts[b - 1].key@);
            } else if a == p {
                assert(counts[b] == old_counts[b - 1]);
                if b - 1 > p {
                    lemma_str_less_trans(key, old_counts[p].key@, old_counts[b - 1].key@);
                }
            } else {
                assert(counts[a] == old_counts[a - 1] && counts[b] == old_counts[b - 1]);
            }
        }
    }
    assert(keys_from_rows(counts, after)) by {
        reveal(keys_from_rows);
        assert forall|i: int| 0 <= i < counts.len() implies exists|q: int|
            0 <= q < after.len() && after[q].0 == #[trigger] counts[i].key@ by {
            if i == p {
                assert(after[before.len() as int].0 == counts[i].key@);
            } else {
                let oi = if i < p { i } else { i - 1 };
                assert(counts[i] == old_counts[oi]);
                let q = choose|q: int| 0 <= q < before.len() && before[q].0 == old_counts[oi].key@;
                assert(after[q] == before[q]);
            }
        }
    }
    assert(rows_have_keys(counts, after)) by {
        reveal(rows_have_keys);
        assert forall|q: int| 0 <= q < after.len() implies exists|i: int|
            0 <= i < counts.len() && #[trigger] counts[i].key@ == #[trigger] after[q].0 by {
            if q < before.len() {
                assert(after[q] == before[q]);
                let i = choose|i: int| 0 <= i < old_counts.len() && #[trigger] old_counts[i].key@ == #[trigger] before[q].0;
                if i < p {
                    assert(counts[i] == old_counts[i]);
                } else {
                    assert(counts[i + 1] == old_counts[i]);
                }
            } else {
                assert(counts[p].key@ == after[q].0);
            }
        }
    }
    assert(exact_counts(counts, after)) by {
        reveal(exact_counts);
        lemma_tally_last(before, key, outcome);
        lemma_tally_bound(before, key, 1);
        lemma_tally_bound(before, key, 2);
        lemma_tally_bound(before, key, 3);
        assert forall|i: int| 0 <= i < counts.len() implies {
            &&& #[trigger] counts[i].n == tally(after, counts[i].key@, 1)
            &&& counts[i].correct == tally(after, counts[i].key@, 2)
            &&& counts[i].excluded == tally(after, counts[i].key@, 3)
        } by {
            if i != p {
                let oi = if i < p { i } else { i - 1 };
                assert(counts[i] == old_counts[oi]);
                assert(old_counts[oi].n == tally(before, old_counts[oi].key@, 1));
                assert(old_counts[oi].key@ != key);
                lemma_tally_push(before, (key, outcome), counts[i].key@, 1);
                lemma_tally_push(before, (key, outcome), counts[i].key@, 2);
                lemma_tally_push(before, (key, outcome), counts[i].key@, 3);
            } else {
                assert(tally(before, key, 1) == 0);
                assert(tally(before, key, 2) == 0);
                assert(tally(before, key, 3) == 0);
            }
        }
    }
}

/// Tally `(key, outcome)` rows by key, in key order: per key the scored
/// rows, the correct ones, and the no-answer ones.
pub fn count_outcomes(rows: &[(String, Option<bool>)]) -> (counts: Vec<OutcomeCounts>)
    ensures
        tallies_of(counts@, rows_view(rows@)),
{
    let ghost rv = rows_view(rows@);
    let mut counts: Vec<OutcomeCounts> = Vec::new();
    proof {
        reveal(sorted_keys);
        reveal(keys_from_rows);
        reveal(rows_have_keys);
        reveal(exact_counts);
    }
    let mut j: usize = 0;
    while j < rows.len()
        invariant
            j <= rows.len(),
            rv == rows_view(rows@),
            tallies_of(counts@, rv.take(j as int)),
        decreases rows.len() - j,
    {
        proof {
            assert(rv.take(j as int + 1) =~= rv.take(j as int).push((rows@[j as int].0@, rows@[j as int].1)));
        }
        add_row(&mut counts, rows[j].0.as_str(), rows[j].1, Ghost(rv.take(j as int)));
        j = j + 1;
    }
    proof {
        assert(rv.take(rows.len() as int) =~= rv);
    }
    counts
}

/// The no-answer labels are exactly `unclear`, `mixed` and
/// `release_merge`; such a label scores as no answer whatever the
/// prediction, and any other label scores right exactly when it names the
/// prediction ignoring ASCII case.
pub proof fn lemma_no_answer_labels(label: Seq<char>)
    ensures
        no_answer(label) <==> (label == "unclear"@ || label == "mixed"@ || label == "release_merge"@),
{
}

} // verus!
