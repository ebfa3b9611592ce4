//! Records shared by sampling, subsetting and scoring: strata, counts and
//! the summary of a drawn sample.

use vstd::prelude::*;
use crate::text::{chars_eq_ignore_ascii_case, lemma_same_case_class, chars_of, eq_ignore_ascii_case, str_eq};
use crate::classify::trace::TraceTier;

verus! {

/// Sampling stratum of a verdict.
///
/// The first six are the design's strata; `Fuzzy` and `RegexOther` split
/// out the remaining rule tiers, and `Other` holds verdicts decided outside
/// the rule engine, so every commit belongs to exactly one stratum.
#[derive(Clone, Copy, Debug, PartialEq, Eq, Structural, Hash, PartialOrd, Ord)]
pub enum Stratum {
    /// Exact-keyword rules.
    Exact,
    /// Regex rules with confidence at least 0.9.
    RegexHigh,
    /// Regex rules with confidence in [0.55, 0.7].
    RegexMid,
    /// Regex rules outside both bands (other than the catch-all).
    RegexOther,
    /// The weighted-sum signal model.
    WeightedSum,
    /// Fuzzy heuristics.
    Fuzzy,
    /// The built-in catch-all regex rule.
    CatchAll,
    /// No tier matched, or the verdict is `uncategorized` / unknown.
    Unknown,
    /// Verdicts decided outside the rule engine.
    Other,
}

/// Number of strata.
pub const STRATUM_COUNT: usize = 9;

/// Position of a stratum in report order.
pub open spec fn stratum_index(s: Stratum) -> int {
    match s {
        Stratum::Exact => 0,
        Stratum::RegexHigh => 1,
        Stratum::RegexMid => 2,
        Stratum::RegexOther => 3,
        Stratum::WeightedSum => 4,
        Stratum::Fuzzy => 5,
        Stratum::CatchAll => 6,
        Stratum::Unknown => 7,
        Stratum::Other => 8,
    }
}

/// The stratum at position `i` of report order.
pub open spec fn stratum_at(i: int) -> Stratum {
    if i <= 0 {
        Stratum::Exact
    } else if i == 1 {
        Stratum::RegexHigh
    } else if i == 2 {
        Stratum::RegexMid
    } else if i == 3 {
        Stratum::RegexOther
    } else if i == 4 {
        Stratum::WeightedSum
    } else if i == 5 {
        Stratum::Fuzzy
    } else if i == 6 {
        Stratum::CatchAll
    } else if i == 7 {
        Stratum::Unknown
    } else {
        Stratum::Other
    }
}

/// Stable snake_case label of a stratum.
pub open spec fn stratum_label(s: Stratum) -> Seq<char> {
    match s {
        Stratum::Exact => "exact"@,
        Stratum::RegexHigh => "regex_high"@,
        Stratum::RegexMid => "regex_mid"@,
        Stratum::RegexOther => "regex_other"@,
        Stratum::WeightedSum => "weighted_sum"@,
        Stratum::Fuzzy => "fuzzy"@,
        Stratum::CatchAll => "catch_all"@,
        Stratum::Unknown => "unknown"@,
        Stratum::Other => "other"@,
    }
}

impl Stratum {
    /// Stable snake_case label, identical to the serialised form.
    pub fn as_str(self) -> (s: &'static str)
        ensures
            s@ == stratum_label(self),
    {
        match self {
            Stratum::Exact => "exact",
            Stratum::RegexHigh => "regex_high",
            Stratum::RegexMid => "regex_mid",
            Stratum::RegexOther => "regex_other",
            Stratum::WeightedSum => "weighted_sum",
            Stratum::Fuzzy => "fuzzy",
            Stratum::CatchAll => "catch_all",
            Stratum::Unknown => "unknown",
            Stratum::Other => "other",
        }
    }

    /// Position in report order.
    pub fn index(self) -> (i: usize)
        ensures
            i as int == stratum_index(self),
            i < STRATUM_COUNT,
    {
        match self {
            Stratum::Exact => 0,
            Stratum::RegexHigh => 1,
            Stratum::RegexMid => 2,
            Stratum::RegexOther => 3,
            Stratum::WeightedSum => 4,
            Stratum::Fuzzy => 5,
            Stratum::CatchAll => 6,
            Stratum::Unknown => 7,
            Stratum::Other => 8,
        }
    }

    /// The stratum at position `i` of report order.
    pub fn from_index(i: usize) -> (s: Stratum)
        requires
            i < STRATUM_COUNT,
        ensures
            s == stratum_at(i as int),
            stratum_index(s) == i,
    {
        if i == 0 {
            Stratum::Exact
        } else if i == 1 {
            Stratum::RegexHigh
        } else if i == 2 {
            Stratum::RegexMid
        } else if i == 3 {
            Stratum::RegexOther
        } else if i == 4 {
            Stratum::WeightedSum
        } else if i == 5 {
            Stratum::Fuzzy
        } else if i == 6 {
            Stratum::CatchAll
        } else if i == 7 {
            Stratum::Unknown
        } else {
            Stratum::Other
        }
    }

    /// Every stratum, in report order.
    pub fn all() -> (v: Vec<Stratum>)
        ensures
            v.len() == STRATUM_COUNT,
            forall|i: int| 0 <= i < STRATUM_COUNT ==> #[trigger] v[i] == stratum_at(i),
    {
        let mut v: Vec<Stratum> = Vec::new();
        let mut i: usize = 0;
        while i < STRATUM_COUNT
            invariant
                i <= STRATUM_COUNT,
                v.len() == i,
                forall|k: int| 0 <= k < i ==> #[trigger] v[k] == stratum_at(k),
            decreases STRATUM_COUNT - i,
        {
            v.push(Stratum::from_index(i));
            i = i + 1;
        }
        v
    }
}

/// Lines changed by a commit.
#[derive(Clone, Debug, Default, PartialEq, Eq, Structural)]
pub struct Diffstat {
    /// Files touched.
    pub files: i64,
    /// Lines added.
    pub insertions: i64,
    /// Lines removed.
    pub deletions: i64,
}

/// Population and sample counts of one stratum.
#[derive(Clone, Copy, Debug, Default, PartialEq, Eq, Structural)]
pub struct StratumCounts {
    /// Commits in the window assigned to this stratum.
    pub population: u64,
    /// Commits sampled from it.
    pub sampled: u64,
}

/// How a subset was drawn from a source sample.
#[derive(Clone, Copy, Debug, Default, PartialEq, Eq, Structural)]
pub struct SubsampleOrigin {
    /// Seed the subset was drawn with.
    pub seed: u64,
    /// Rows in the subset.
    pub size: u64,
    /// Rows in the source sample.
    pub source_size: u64,
}

/// Contents of a sample's strata summary.
///
/// `strata` lists the per-stratum counts keyed by stratum label, in key
/// order, each key once.
#[derive(Clone, Debug, Default)]
pub struct StrataSummary {
    /// Seed the sample was drawn with.
    pub seed: u64,
    /// Window length in weeks.
    pub weeks: u32,
    /// Inclusive window start (RFC 3339).
    pub window_start: String,
    /// Window end: the newest commit timestamp in the database (RFC 3339).
    pub window_end: String,
    /// Requested sample size.
    pub requested_size: u64,
    /// Per-repo and per-author cap within a stratum.
    pub cap: u64,
    /// Commits in the window.
    pub population: u64,
    /// Merge commits in the window, excluded from every stratum.
    pub merges_excluded: u64,
    /// Per-stratum counts, keyed by stratum label.
    pub strata: Vec<(String, StratumCounts)>,
    /// Valid rater labels other than `unclear` and `mixed`.
    pub categories: Vec<String>,
    /// Set when the summary describes a subset drawn from another sample.
    pub subsample: Option<SubsampleOrigin>,
}

/// Population recorded under `label` (the first entry with that key), or
/// 0 when no entry has it.
pub open spec fn population_in(strata: Seq<(String, StratumCounts)>, label: Seq<char>) -> u64
    decreases strata.len(),
{
    if strata.len() == 0 {
        0
    } else if strata[0].0@ == label {
        strata[0].1.population
    } else {
        population_in(strata.drop_first(), label)
    }
}

impl StrataSummary {
    /// Population of one stratum (0 when absent).
    pub fn population_of(&self, stratum: Stratum) -> (p: u64)
        ensures
            p == population_in(self.strata@, stratum_label(stratum)),
    {
        let label = stratum.as_str();
        let mut i: usize = 0;
        assert(self.strata@.skip(0) =~= self.strata@);
        while i < self.strata.len()
            invariant
                i <= self.strata.len(),
                label@ == stratum_label(stratum),
                population_in(self.strata@, label@) == population_in(self.strata@.skip(i as int), label@),
            decreases self.strata.len() - i,
        {
            proof {
                assert(self.strata@.skip(i as int).drop_first() == self.strata@.skip(i as int + 1));
                assert(self.strata@.skip(i as int)[0] == self.strata@[i as int]);
            }
            if str_eq(self.strata[i].0.as_str(), label) {
                return self.strata[i].1.population;
            }
            i = i + 1;
        }
        0
    }
}


/// Where a regex verdict's confidence lies: at least 0.9, within
/// [0.55, 0.7], or elsewhere.
#[derive(Clone, Copy, Debug, PartialEq, Eq, Structural)]
pub enum ConfidenceBand {
    /// Confidence at least 0.9.
    High,
    /// Confidence within [0.55, 0.7].
    Mid,
    /// Any other confidence.
    Other,
}

/// IEEE-754 bit pattern of 0.9.
pub const HIGH_FLOOR_BITS: u64 = 0x3FEC_CCCC_CCCC_CCCD;

/// IEEE-754 bit pattern of 0.55.
pub const MID_FLOOR_BITS: u64 = 0x3FE1_9999_9999_999A;

/// IEEE-754 bit pattern of 0.7.
pub const MID_CEIL_BITS: u64 = 0x3FE6_6666_6666_6666;

/// IEEE-754 bit pattern of positive infinity; larger patterns without the
/// sign bit are NaNs.
pub const POS_INFINITY_BITS: u64 = 0x7FF0_0000_0000_0000;

/// The band of a confidence given as its IEEE-754 bit pattern
/// (`f64::to_bits`). A pattern without the sign bit and at most that of
/// infinity is a non-negative number, and those order exactly as their
/// patterns do; a negative number (sign bit set) or a NaN is below 0.55 or
/// unordered, so it falls in no band but `Other`. Hence: `High` iff the
/// number is `>= 0.9`, `Mid` iff it lies within `[0.55, 0.7]`.
pub open spec fn band_of_bits(bits: u64) -> ConfidenceBand {
    if bits >= 0x8000_0000_0000_0000 || bits > POS_INFINITY_BITS {
        ConfidenceBand::Other
    } else if bits >= HIGH_FLOOR_BITS {
        ConfidenceBand::High
    } else if MID_FLOOR_BITS <= bits && bits <= MID_CEIL_BITS {
        ConfidenceBand::Mid
    } else {
        ConfidenceBand::Other
    }
}

impl ConfidenceBand {
    /// The band of a confidence given as its IEEE-754 bit pattern.
    pub fn of_bits(bits: u64) -> (b: ConfidenceBand)
        ensures
            b == band_of_bits(bits),
    {
        if bits >= 0x8000_0000_0000_0000 || bits > POS_INFINITY_BITS {
            ConfidenceBand::Other
        } else if bits >= HIGH_FLOOR_BITS {
            ConfidenceBand::High
        } else if MID_FLOOR_BITS <= bits && bits <= MID_CEIL_BITS {
            ConfidenceBand::Mid
        } else {
            ConfidenceBand::Other
        }
    }
}

/// The stratum of a verdict. The catch-all comes first (its category is a real
/// rule output), then `uncategorized` / `unknown` categories (any ASCII
/// case) and unmatched commits, then the tier, regex verdicts split by
/// confidence band.
pub open spec fn stratum_of(tier: TraceTier, category: Seq<char>, band: ConfidenceBand) -> Stratum {
    if tier == TraceTier::CatchAll {
        Stratum::CatchAll
    } else if tier == TraceTier::Unclassified || eq_ignore_ascii_case(category, "uncategorized"@)
        || eq_ignore_ascii_case(category, "unknown"@) {
        Stratum::Unknown
    } else {
        match tier {
            TraceTier::Exact => Stratum::Exact,
            TraceTier::Regex => match band {
                ConfidenceBand::High => Stratum::RegexHigh,
                ConfidenceBand::Mid => Stratum::RegexMid,
                ConfidenceBand::Other => Stratum::RegexOther,
            },
            TraceTier::WeightedSum => Stratum::WeightedSum,
            TraceTier::Fuzzy => Stratum::Fuzzy,
            _ => Stratum::Other,
        }
    }
}

impl Stratum {
    /// Assign a verdict to its stratum; the confidence, given as its
    /// IEEE-754 bit pattern (`f64::to_bits`), places a regex verdict in a
    /// band. Strata partition the population, so stratum weights sum to it.
    pub fn classify(tier: TraceTier, category: &str, confidence_bits: u64) -> (s: Stratum)
        ensures
            s == stratum_of(tier, category@, band_of_bits(confidence_bits)),
    {
        let band = ConfidenceBand::of_bits(confidence_bits);
        if tier == TraceTier::CatchAll {
            return Stratum::CatchAll;
        }
        let c = chars_of(category);
        let unc = chars_of("uncategorized");
        let unk = chars_of("unknown");
        if tier == TraceTier::Unclassified || chars_eq_ignore_ascii_case(c.as_slice(), unc.as_slice())
            || chars_eq_ignore_ascii_case(c.as_slice(), unk.as_slice()) {
            return Stratum::Unknown;
        }
        match tier {
            TraceTier::Exact => Stratum::Exact,
            TraceTier::Regex => match band {
                ConfidenceBand::High => Stratum::RegexHigh,
                ConfidenceBand::Mid => Stratum::RegexMid,
                ConfidenceBand::Other => Stratum::RegexOther,
            },
            TraceTier::WeightedSum => Stratum::WeightedSum,
            TraceTier::Fuzzy => Stratum::Fuzzy,
            _ => Stratum::Other,
        }
    }
}

/// A verdict outside the catch-all whose category is `uncategorized` or
/// `unknown` in any ASCII case, or that the engine left unclassified, is in
/// the unknown stratum, whatever its tier and confidence; the catch-all
/// always has its own stratum.
pub proof fn lemma_uncategorized_is_unknown(tier: TraceTier, category: Seq<char>, band: ConfidenceBand)
    ensures
        tier == TraceTier::CatchAll ==> stratum_of(tier, category, band) == Stratum::CatchAll,
        tier != TraceTier::CatchAll && (tier == TraceTier::Unclassified || eq_ignore_ascii_case(
            category,
            "uncategorized"@,
        ) || eq_ignore_ascii_case(category, "unknown"@)) ==> stratum_of(tier, category, band) == Stratum::Unknown,
        stratum_of(tier, category, band) == Stratum::Unknown ==> tier != TraceTier::CatchAll && (tier
            == TraceTier::Unclassified || eq_ignore_ascii_case(category, "uncategorized"@) || eq_ignore_ascii_case(
            category,
            "unknown"@,
        )),
{
}

/// The stratum reads the category without regard to ASCII case: two
/// categories equal ignoring ASCII case put a verdict in the same stratum.
pub proof fn lemma_stratum_ignores_category_case(
    tier: TraceTier,
    c1: Seq<char>,
    c2: Seq<char>,
    band: ConfidenceBand,
)
    requires
        eq_ignore_ascii_case(c1, c2),
    ensures
        stratum_of(tier, c1, band) == stratum_of(tier, c2, band),
{
    lemma_same_case_class(c1, c2, "uncategorized"@);
    lemma_same_case_class(c1, c2, "unknown"@);
}


/// Outside the catch-all and the unknown stratum, the tier decides, and a
/// regex verdict's confidence band picks one of the three regex strata.
pub proof fn lemma_known_verdicts_go_by_tier(tier: TraceTier, category: Seq<char>, band: ConfidenceBand)
    requires
        stratum_of(tier, category, band) != Stratum::CatchAll,
        stratum_of(tier, category, band) != Stratum::Unknown,
    ensures
        tier == TraceTier::Exact <==> stratum_of(tier, category, band) == Stratum::Exact,
        tier == TraceTier::WeightedSum <==> stratum_of(tier, category, band) == Stratum::WeightedSum,
        tier == TraceTier::Fuzzy <==> stratum_of(tier, category, band) == Stratum::Fuzzy,
        tier == TraceTier::Regex && band == ConfidenceBand::High <==> stratum_of(tier, category, band)
            == Stratum::RegexHigh,
        tier == TraceTier::Regex && band == ConfidenceBand::Mid <==> stratum_of(tier, category, band)
            == Stratum::RegexMid,
        tier == TraceTier::Regex && band == ConfidenceBand::Other <==> stratum_of(tier, category, band)
            == Stratum::RegexOther,
{
}

/// Report order is a one-to-one numbering of the nine strata.
pub proof fn lemma_report_order_numbers_each_stratum_once(s: Stratum, i: int)
    ensures
        0 <= stratum_index(s) < STRATUM_COUNT,
        stratum_at(stratum_index(s)) == s,
        0 <= i < STRATUM_COUNT ==> stratum_index(stratum_at(i)) == i,
{
}

/// No two strata share a label, so a label names one stratum.
pub proof fn lemma_stratum_labels_are_distinct(a: Stratum, b: Stratum)
    ensures
        stratum_label(a) == stratum_label(b) ==> a == b,
{
    reveal_strlit("exact");
    reveal_strlit("regex_high");
    reveal_strlit("regex_mid");
    reveal_strlit("regex_other");
    reveal_strlit("weighted_sum");
    reveal_strlit("fuzzy");
    reveal_strlit("catch_all");
    reveal_strlit("unknown");
    reveal_strlit("other");
    if stratum_label(a) == stratum_label(b) && a != b {
        let la = stratum_label(a);
        let lb = stratum_label(b);
        assert(la.len() == lb.len());
        assert(la[0] == lb[0]);
        assert(la[la.len() - 1] == lb[lb.len() - 1]);
        if la.len() > 6 {
            assert(la[6] == lb[6]);
        }
    }
}

/// The confidence bands over IEEE-754 bit patterns: high is every
/// non-negative value from 0.9 (`0x3FECCCCCCCCCCCCD`) up to and including
/// +infinity; mid is 0.55 (`0x3FE199999999999A`) to 0.7
/// (`0x3FE6666666666666`) inclusive; negative numbers, NaNs and everything
/// else are in neither.
pub proof fn lemma_confidence_bands(bits: u64)
    ensures
        band_of_bits(bits) == ConfidenceBand::High <==> 0x3FEC_CCCC_CCCC_CCCDu64 <= bits
            <= 0x7FF0_0000_0000_0000u64,
        band_of_bits(bits) == ConfidenceBand::Mid <==> 0x3FE1_9999_9999_999Au64 <= bits
            <= 0x3FE6_6666_6666_6666u64,
{
}

} // verus!
