//! Re-deriving an existing sample's predictions: the provenance record and
//! the content hashes it names.

use vstd::prelude::*;
use crate::digest::{blake3_digest, blake3_hash};
use crate::paths::{portable_path, replaced_extension, with_extension_text};
use crate::eval::sample::{hex_char, lower_hex};
use crate::text::{str_eq, string_from_chars};
use crate::classify::trace::{tier_label, TraceTier};
use crate::eval::records::{band_of_bits, stratum_of, Stratum};
use crate::eval::verdict::VerdictChoice;

verus! {

/// A file named in the provenance, with the BLAKE3 hash of its bytes.
#[derive(Clone, Debug, PartialEq, Eq)]
pub struct HashedFile {
    /// Absolute path when it could be resolved, else as given.
    pub path: String,
    /// Hex BLAKE3 of the file's contents.
    pub blake3: String,
}

/// Contents of the provenance file written beside the output.
#[derive(Clone, Debug)]
pub struct Provenance {
    /// `tga` version that re-derived the predictions.
    pub tga_version: String,
    /// The config file.
    pub config: HashedFile,
    /// The rules files the config names, in load order.
    pub rules_files: Vec<HashedFile>,
    /// The sample whose rows were re-predicted.
    pub source_sample: HashedFile,
    /// Database the commits were read from.
    pub db: String,
    /// Rows written.
    pub rows: u64,
    /// Rows whose `predicted_category` changed.
    pub changed: u64,
    /// Rows that now predict no category.
    pub abstentions: u64,
    /// Rows whose stored verdict was carried rather than re-derived, by
    /// method, in method order.
    pub carried: Vec<(String, u64)>,
    /// Rows whose stored non-rule verdict the config no longer reaches.
    pub superseded: u64,
}

/// What a re-prediction run wrote.
#[derive(Debug)]
pub struct RepredictSummary {
    /// Contents of the provenance file.
    pub provenance: Provenance,
    /// Files written: the sample, then the provenance.
    pub files: Vec<std::path::PathBuf>,
}

/// Provenance file for the output path `out`: `x.jsonl` becomes
/// `x.provenance.json`.
pub fn provenance_path(out: &str) -> (p: String)
    ensures
        portable_path(out@) ==> p@ == replaced_extension(out@, "provenance.json"@),
{
    let ext = "provenance.json";
    proof {
        reveal_strlit("provenance.json");
        assert(!ext@.contains('/'));
        assert(!ext@.contains('\\'));
    }
    with_extension_text(out, ext)
}

/// Hex BLAKE3 digest of `bytes` (`blake3::hash(..).to_hex()`): 64
/// lower-case hex digits.
pub fn content_hash(bytes: &[u8]) -> (h: String)
    ensures
        h@ == lower_hex(blake3_digest(bytes@)),
{
    let digest = blake3_hash(bytes);
    let mut out: Vec<char> = Vec::new();
    let mut i: usize = 0;
    while i < digest.len()
        invariant
            i <= digest@.len(),
            out@ == lower_hex(digest@.take(i as int)),
        decreases digest@.len() - i,
    {
        proof {
            assert(digest@.take(i as int + 1).drop_last() =~= digest@.take(i as int));
        }
        let b = digest[i];
        out.push(hex_char(b / 16));
        out.push(hex_char(b % 16));
        proof {
            assert(out@ =~= lower_hex(digest@.take(i as int + 1)));
        }
        i = i + 1;
    }
    assert(digest@.take(digest@.len() as int) =~= digest@);
    string_from_chars(out.as_slice())
}

/// A verdict as re-prediction resolves it for one row.
#[derive(Clone, Debug, PartialEq, Eq)]
pub struct ResolvedVerdict {
    /// Tier that decided it.
    pub tier: TraceTier,
    /// Rule (or override) id.
    pub rule_id: String,
    /// Category.
    pub category: String,
    /// Confidence as its IEEE-754 bit pattern.
    pub confidence_bits: u64,
    /// The stored verdict was carried.
    pub carried: bool,
    /// A stored non-rule verdict was dropped for the re-derived one.
    pub superseded: bool,
}

/// The resolved verdict for a row: a carried choice keeps the stored
/// category and confidence under the carried tier and rule id; otherwise
/// the engine's re-derived verdict stands.
pub open spec fn resolved_of(
    choice: VerdictChoice,
    stored: (Seq<char>, u64),
    traced: (TraceTier, Seq<char>, Seq<char>, u64),
) -> (TraceTier, Seq<char>, Seq<char>, u64, bool, bool) {
    match choice {
        VerdictChoice::Carried { tier, rule_id } => (tier, rule_id@, stored.0, stored.1, true, false),
        VerdictChoice::Rederived { superseded, .. } => (traced.0, traced.1, traced.2, traced.3, false, superseded),
    }
}

/// A resolved verdict as plain values.
pub open spec fn resolved_view(v: ResolvedVerdict) -> (TraceTier, Seq<char>, Seq<char>, u64, bool, bool) {
    (v.tier, v.rule_id@, v.category@, v.confidence_bits, v.carried, v.superseded)
}

/// Resolve one row's verdict from the carrying choice, its stored
/// `(category, confidence bits)` and the engine's `(tier, rule id,
/// category, confidence bits)`.
pub fn resolve_verdict(
    choice: VerdictChoice,
    stored: (&str, u64),
    traced: (TraceTier, &str, &str, u64),
) -> (v: ResolvedVerdict)
    ensures
        resolved_view(v) == resolved_of(choice, (stored.0@, stored.1), (traced.0, traced.1@, traced.2@, traced.3)),
{
    match choice {
        VerdictChoice::Carried { tier, rule_id } => ResolvedVerdict {
            tier,
            rule_id: String::from_str(rule_id),
            category: String::from_str(stored.0),
            confidence_bits: stored.1,
            carried: true,
            superseded: false,
        },
        VerdictChoice::Rederived { superseded, .. } => ResolvedVerdict {
            tier: traced.0,
            rule_id: String::from_str(traced.1),
            category: String::from_str(traced.2),
            confidence_bits: traced.3,
            carried: false,
            superseded,
        },
    }
}

/// The prediction fields of a sample row that re-prediction replaces, and
/// its merge flag.
#[derive(Clone, Debug, PartialEq, Eq)]
pub struct PredictionFields {
    /// Method (the tier's label).
    pub method: String,
    /// Rule id.
    pub rule_id: String,
    /// Predicted category.
    pub predicted_category: String,
    /// Confidence as its IEEE-754 bit pattern.
    pub confidence_bits: u64,
    /// Merge flag; `None` when unknown.
    pub is_merge: Option<bool>,
}

/// Why re-prediction was refused.
#[derive(Clone, Debug, PartialEq, Eq)]
pub enum RepredictError {
    /// The sample holds no rows.
    EmptySample,
    /// Rows the database does not hold: how many, and the first one's
    /// position.
    Missing { count: usize, first: usize },
}

/// What re-prediction counts.
#[derive(Clone, Debug, PartialEq, Eq)]
pub struct RepredictCounts {
    /// Rows written.
    pub rows: u64,
    /// Rows whose predicted category changed.
    pub changed: u64,
    /// Rows that now fall in the unknown stratum.
    pub abstentions: u64,
    /// Carried rows by method, in method order, methods with none left out.
    pub carried: Vec<(String, u64)>,
    /// Rows whose stored non-rule verdict was superseded.
    pub superseded: u64,
}

/// The tiers in the string order of their labels.
pub open spec fn tiers_by_label() -> Seq<TraceTier> {
    seq![
        TraceTier::CatchAll,
        TraceTier::Exact,
        TraceTier::ExternalSource,
        TraceTier::Fuzzy,
        TraceTier::IssueType,
        TraceTier::JiraProject,
        TraceTier::Llm,
        TraceTier::Manual,
        TraceTier::Regex,
        TraceTier::RepoCategory,
        TraceTier::Unclassified,
        TraceTier::WeightedSum,
    ]
}

/// Rows among the first `n` whose database lookup failed.
pub open spec fn missing_count(db_merge: Seq<Option<bool>>, n: int) -> nat
    decreases n,
{
    if n <= 0 {
        0
    } else {
        missing_count(db_merge, n - 1) + if db_merge[n - 1] is None {
            1nat
        } else {
            0nat
        }
    }
}

/// Position of the first failed lookup at or after `i`, or the length.
pub open spec fn first_missing(db_merge: Seq<Option<bool>>, i: int) -> int
    decreases db_merge.len() - i,
{
    if i < 0 || i >= db_merge.len() {
        db_merge.len() as int
    } else if db_merge[i] is None {
        i
    } else {
        first_missing(db_merge, i + 1)
    }
}

/// Rows among the first `n` counted by `which`, where `0` counts a changed
/// category, `1` a row now in the unknown stratum and `2` a superseded
/// stored verdict.
pub open spec fn count_rows(
    old_categories: Seq<String>,
    resolved: Seq<ResolvedVerdict>,
    which: int,
    n: int,
) -> nat
    decreases n,
{
    if n <= 0 {
        0
    } else {
        let v = resolved[n - 1];
        let hit = if which == 0 {
            old_categories[n - 1]@ != v.category@
        } else if which == 1 {
            stratum_of(v.tier, v.category@, band_of_bits(v.confidence_bits)) == Stratum::Unknown
        } else {
            v.superseded
        };
        count_rows(old_categories, resolved, which, n - 1) + if hit {
            1nat
        } else {
            0nat
        }
    }
}

/// Carried rows among the first `n` decided by tier `t`.
pub open spec fn carried_count(resolved: Seq<ResolvedVerdict>, t: TraceTier, n: int) -> nat
    decreases n,
{
    if n <= 0 {
        0
    } else {
        carried_count(resolved, t, n - 1) + if resolved[n - 1].carried && resolved[n - 1].tier == t {
            1nat
        } else {
            0nat
        }
    }
}

/// `(method, count)` of the carried rows for the first `k` tiers in label
/// order, tiers with none left out.
pub open spec fn carried_entries(resolved: Seq<ResolvedVerdict>, k: int) -> Seq<(Seq<char>, nat)>
    decreases k,
{
    if k <= 0 {
        Seq::empty()
    } else {
        let t = tiers_by_label()[k - 1];
        let c = carried_count(resolved, t, resolved.len() as int);
        if c > 0 {
            carried_entries(resolved, k - 1).push((tier_label(t), c))
        } else {
            carried_entries(resolved, k - 1)
        }
    }
}

/// The fields written for row `i`.
pub open spec fn fields_of(v: ResolvedVerdict, own_merge: Option<bool>, db_merge: Option<bool>) -> (
    Seq<char>,
    Seq<char>,
    Seq<char>,
    u64,
    Option<bool>,
) {
    (tier_label(v.tier), v.rule_id@, v.category@, v.confidence_bits, if own_merge is Some {
        own_merge
    } else {
        db_merge
    })
}

/// Re-predict a sample: each row's prediction fields become its resolved
/// verdict's (method = the tier's label, rule id, category, confidence),
/// and a row without a merge flag takes the database's. Refused for an
/// empty sample, and for rows the database does not hold (`db_merge`
/// `None`), fail closed. `categories` are the rows' old predicted
/// categories, `own_merge` their own merge flags.
pub fn repredict_rows(
    categories: &[String],
    own_merge: &[Option<bool>],
    resolved: &[ResolvedVerdict],
    db_merge: &[Option<bool>],
) -> (r: Result<(Vec<PredictionFields>, RepredictCounts), RepredictError>)
    requires
        own_merge.len() == categories.len(),
        resolved.len() == categories.len(),
        db_merge.len() == categories.len(),
    ensures
        categories.len() == 0 ==> r == Err::<(Vec<PredictionFields>, RepredictCounts), RepredictError>(
            RepredictError::EmptySample,
        ),
        categories.len() > 0 && missing_count(db_merge@, db_merge.len() as int) > 0 ==> r == Err::<
            (Vec<PredictionFields>, RepredictCounts),
            RepredictError,
        >(
            RepredictError::Missing {
                count: missing_count(db_merge@, db_merge.len() as int) as usize,
                first: first_missing(db_merge@, 0) as usize,
            },
        ),
        categories.len() > 0 && missing_count(db_merge@, db_merge.len() as int) == 0 ==> (r matches Ok(
            (out, c),
        ) && out.len() == categories.len() && (forall|i: int|
            0 <= i < out.len() ==> (#[trigger] out@[i].method@, out@[i].rule_id@, out@[i].predicted_category@,
            out@[i].confidence_bits, out@[i].is_merge) == fields_of(resolved@[i], own_merge@[i], db_merge@[i]))
            && c.rows == categories.len() && c.changed == count_rows(categories@, resolved@, 0, categories.len() as int)
            && c.abstentions == count_rows(categories@, resolved@, 1, categories.len() as int)
            && c.superseded == count_rows(categories@, resolved@, 2, categories.len() as int)
            && c.carried.len() == carried_entries(resolved@, 12).len() && (forall|k: int|
            0 <= k < c.carried.len() ==> (#[trigger] c.carried@[k].0@, c.carried@[k].1 as nat)
                == carried_entries(resolved@, 12)[k])),
{
    let n = categories.len();
    if n == 0 {
        return Err(RepredictError::EmptySample);
    }
    let mut missing: usize = 0;
    let mut first: usize = n;
    let mut i: usize = 0;
    while i < n
        invariant
            n == db_merge.len(),
            i <= n,
            missing == missing_count(db_merge@, i as int),
            missing <= i,
            first == if missing == 0 { n as int } else { first_missing(db_merge@, 0) },
            missing == 0 ==> forall|q: int| 0 <= q < i ==> db_merge@[q] is Some,
        decreases n - i,
    {
        if db_merge[i].is_none() {
            if missing == 0 {
                proof {
                    lemma_first_missing(db_merge@, 0, i as int);
                }
                first = i;
            }
            missing = missing + 1;
        }
        i = i + 1;
    }
    if missing > 0 {
        return Err(RepredictError::Missing { count: missing, first });
    }
    let mut out: Vec<PredictionFields> = Vec::new();
    let mut changed: u64 = 0;
    let mut abstentions: u64 = 0;
    let mut superseded: u64 = 0;
    let mut k: usize = 0;
    while k < n
        invariant
            n == categories.len(),
            own_merge.len() == n,
            resolved.len() == n,
            db_merge.len() == n,
            k <= n,
            out.len() == k,
            forall|q: int|
                0 <= q < k ==> (#[trigger] out@[q].method@, out@[q].rule_id@, out@[q].predicted_category@,
                out@[q].confidence_bits, out@[q].is_merge) == fields_of(resolved@[q], own_merge@[q], db_merge@[q]),
            changed == count_rows(categories@, resolved@, 0, k as int),
            abstentions == count_rows(categories@, resolved@, 1, k as int),
            superseded == count_rows(categories@, resolved@, 2, k as int),
            changed <= k,
            abstentions <= k,
            superseded <= k,
        decreases n - k,
    {
        let v = &resolved[k];
        if !str_eq(categories[k].as_str(), v.category.as_str()) {
            changed = changed + 1;
        }
        let st = Stratum::classify(v.tier, v.category.as_str(), v.confidence_bits);
        if st == Stratum::Unknown {
            abstentions = abstentions + 1;
        }
        if v.superseded {
            superseded = superseded + 1;
        }
        let merge_flag = match own_merge[k] {
            Some(b) => Some(b),
            None => db_merge[k],
        };
        out.push(
            PredictionFields {
                method: String::from_str(v.tier.as_str()),
                rule_id: String::from_str(v.rule_id.as_str()),
                predicted_category: String::from_str(v.category.as_str()),
                confidence_bits: v.confidence_bits,
                is_merge: merge_flag,
            },
        );
        k = k + 1;
    }
    let carried = carried_by_method(resolved);
    Ok((out, RepredictCounts { rows: n as u64, changed, abstentions, carried, superseded }))
}

proof fn lemma_first_missing(db_merge: Seq<Option<bool>>, j: int, i: int)
    requires
        0 <= j <= i < db_merge.len(),
        db_merge[i] is None,
        forall|q: int| j <= q < i ==> db_merge[q] is Some,
    ensures
        first_missing(db_merge, j) == i,
    decreases i - j,
{
    if j < i {
        lemma_first_missing(db_merge, j + 1, i);
    }
}

/// Count the carried rows of each tier, in label order.
fn carried_by_method(resolved: &[ResolvedVerdict]) -> (c: Vec<(String, u64)>)
    ensures
        c.len() == carried_entries(resolved@, 12).len(),
        forall|k: int| 0 <= k < c.len() ==> (#[trigger] c@[k].0@, c@[k].1 as nat) == carried_entries(resolved@, 12)[k],
{
    let tiers: [TraceTier; 12] = [
        TraceTier::CatchAll,
        TraceTier::Exact,
        TraceTier::ExternalSource,
        TraceTier::Fuzzy,
        TraceTier::IssueType,
        TraceTier::JiraProject,
        TraceTier::Llm,
        TraceTier::Manual,
        TraceTier::Regex,
        TraceTier::RepoCategory,
        TraceTier::Unclassified,
        TraceTier::WeightedSum,
    ];
    assert(tiers@ == tiers_by_label());
    let mut c: Vec<(String, u64)> = Vec::new();
    let mut t: usize = 0;
    while t < 12
        invariant
            t <= 12,
            tiers@ == tiers_by_label(),
            c.len() == carried_entries(resolved@, t as int).len(),
            forall|k: int| 0 <= k < c.len() ==> (#[trigger] c@[k].0@, c@[k].1 as nat) == carried_entries(resolved@, t as int)[k],
        decreases 12 - t,
    {
        let tier = tiers[t];
        let mut count: u64 = 0;
        let mut i: usize = 0;
        while i < resolved.len()
            invariant
                i <= resolved.len(),
                count == carried_count(resolved@, tier, i as int),
                count <= i,
            decreases resolved.len() - i,
        {
            if resolved[i].carried && resolved[i].tier == tier {
                count = count + 1;
            }
            i = i + 1;
        }
        let ghost before = c@;
        assert(tier == tiers_by_label()[t as int]);
        if count > 0 {
            let label = String::from_str(tier.as_str());
            c.push((label, count));
            assert(c@ == before.push((label, count)));
            let ghost ce = carried_entries(resolved@, t as int);
            assert(carried_entries(resolved@, t + 1) == ce.push((tier_label(tier), count as nat)));
            assert(label@ == tier_label(tier));
            assert forall|k: int| 0 <= k < c.len() implies (#[trigger] c@[k].0@, c@[k].1 as nat)
                == carried_entries(resolved@, t + 1)[k] by {
                if k < before.len() {
                    assert(c@[k] == before[k]);
                    assert((before[k].0@, before[k].1 as nat) == ce[k]);
                }
            }
        } else {
            assert(carried_entries(resolved@, t + 1) == carried_entries(resolved@, t as int));
        }
        t = t + 1;
    }
    c
}

/// A re-derived choice takes the engine's verdict whole (tier, rule id,
/// category, confidence) and ignores the stored one; only a carried choice
/// keeps the stored category and confidence, under the carried tier and
/// rule id.
pub proof fn lemma_resolution_takes_the_chosen_side(
    choice: VerdictChoice,
    stored: (Seq<char>, u64),
    other_stored: (Seq<char>, u64),
    traced: (TraceTier, Seq<char>, Seq<char>, u64),
)
    ensures
        choice is Rederived ==> ({
            let r = resolved_of(choice, stored, traced);
            &&& r.0 == traced.0
            &&& r.1 == traced.1
            &&& r.2 == traced.2
            &&& r.3 == traced.3
            &&& !r.4
            &&& r == resolved_of(choice, other_stored, traced)
        }),
        choice matches VerdictChoice::Carried { tier, rule_id } ==> ({
            let r = resolved_of(choice, stored, traced);
            &&& r.0 == tier
            &&& r.1 == rule_id@
            &&& r.2 == stored.0
            &&& r.3 == stored.1
            &&& r.4
            &&& !r.5
        }),
        choice matches VerdictChoice::Rederived { superseded, .. } ==> resolved_of(choice, stored, traced).5
            == superseded,
{
}

/// The changed count counts exactly the rows whose category moved: it is
/// zero exactly when every row keeps its category, equals the number of
/// rows exactly when every row's category changed, and never exceeds it.
pub proof fn lemma_changed_rows(old_categories: Seq<String>, resolved: Seq<ResolvedVerdict>, n: int)
    requires
        0 <= n <= old_categories.len(),
        n <= resolved.len(),
    ensures
        count_rows(old_categories, resolved, 0, n) <= n,
        count_rows(old_categories, resolved, 0, n) == 0 <==> forall|i: int|
            0 <= i < n ==> old_categories[i]@ == (#[trigger] resolved[i]).category@,
        count_rows(old_categories, resolved, 0, n) == n <==> forall|i: int|
            0 <= i < n ==> old_categories[i]@ != (#[trigger] resolved[i]).category@,
    decreases n,
{
    if n > 0 {
        lemma_changed_rows(old_categories, resolved, n - 1);
        let m = n - 1;
        if old_categories[m]@ == resolved[m].category@ {
            assert(count_rows(old_categories, resolved, 0, n) == count_rows(old_categories, resolved, 0, m));
        } else {
            assert(count_rows(old_categories, resolved, 0, n) == count_rows(old_categories, resolved, 0, m) + 1);
        }
    }
}

/// A re-predicted row takes the resolved verdict's tier label, rule id,
/// category and confidence; its merge flag is its own where it has one and
/// the database's only where it has none.
pub proof fn lemma_row_fields(v: ResolvedVerdict, own_merge: Option<bool>, db_merge: Option<bool>)
    ensures
        fields_of(v, own_merge, db_merge).0 == tier_label(v.tier),
        fields_of(v, own_merge, db_merge).1 == v.rule_id@,
        fields_of(v, own_merge, db_merge).2 == v.category@,
        fields_of(v, own_merge, db_merge).3 == v.confidence_bits,
        own_merge is Some ==> fields_of(v, own_merge, db_merge).4 == own_merge,
        own_merge is None ==> fields_of(v, own_merge, db_merge).4 == db_merge,
{
}

} // verus!
