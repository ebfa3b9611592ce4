//! Seeded, proportional subsets of an existing sample.
//!
//! A full sample is more rows than one person labels in a sitting, and
//! agreement between two raters is measured on a smaller subset that must
//! keep the sample's stratum mix and be redrawable.

use vstd::prelude::*;
use crate::eval::hamilton::{
    clipped_size, count_before, hamilton_share, leftover, quota, quota_rem, quota_sum, tops_before,
    top_up_rank,
};
use crate::eval::water::total;
use crate::digest::{blake3_digest, blake3_hash};
use crate::eval::draw::{digest_prefix_u64, push_str_bytes};
use crate::eval::order::{lemma_sort_bounds, sort_by_key, sort_by_keys};
use crate::eval::records::{
    population_in, stratum_at, stratum_index, stratum_label, StrataSummary, Stratum, StratumCounts,
    SubsampleOrigin, STRATUM_COUNT,
};
use crate::eval::rng::{seeded_shuffle, shuffled};
use crate::text::{chars_of, str_eq};
use std::path::PathBuf;
use vstd::bytes::{spec_u64_from_le_bytes, spec_u64_to_le_bytes, u64_to_le_bytes};
use vstd::utf8::encode_utf8;

verus! {

/// Inputs of a subset draw.
#[derive(Debug)]
pub struct SubsampleParams {
    /// Source sample file.
    pub from: PathBuf,
    /// Source strata summary; defaults to the file next to `from`.
    pub strata: Option<PathBuf>,
    /// Rows in the subset.
    pub size: usize,
    /// RNG seed.
    pub seed: u64,
    /// Database copy used to resolve the merge flag of source rows that
    /// lack one; opened read-only.
    pub db: Option<PathBuf>,
    /// Output directory; must not already hold the output files.
    pub out: PathBuf,
}

/// What a subset draw wrote.
#[derive(Debug, Default)]
pub struct SubsampleSummary {
    /// Contents of the subset's strata summary.
    pub strata: StrataSummary,
    /// Files written.
    pub files: Vec<PathBuf>,
}

/// One source row, as the subset draw reads it.
#[derive(Clone, Debug)]
pub struct SubsampleRow {
    /// Commit SHA.
    pub sha: String,
    /// Sampling stratum.
    pub stratum: Stratum,
}

/// Why a subset cannot be drawn.
#[derive(Clone, Debug)]
pub enum SubsampleError {
    /// The requested size is zero or above the number of source rows.
    SizeOutOfRange {
        /// Requested size.
        size: usize,
        /// Source rows available.
        rows: usize,
    },
    /// A SHA appears twice in the source rows.
    DuplicateSha(String),
    /// A stratum has rows but no population in the strata summary.
    MissingPopulation(Stratum),
}

/// The subset chosen from the source rows.
#[derive(Clone, Debug)]
pub struct SubsampleSelection {
    /// Per source row, whether it is in the subset.
    pub keep: Vec<bool>,
    /// Subset rows per stratum, by stratum position in report order.
    pub taken: Vec<usize>,
    /// The subset's strata summary.
    pub strata: StrataSummary,
}

/// Positions (increasing) of the rows in `stratum`.
pub open spec fn row_members(rows: Seq<SubsampleRow>, stratum: Stratum) -> Seq<usize>
    decreases rows.len(),
{
    if rows.len() == 0 {
        Seq::empty()
    } else {
        let rest = row_members(rows.drop_last(), stratum);
        if rows.last().stratum == stratum {
            rest.push((rows.len() - 1) as usize)
        } else {
            rest
        }
    }
}

/// The SHAs of the rows, as character sequences.
pub open spec fn row_keys(rows: Seq<SubsampleRow>) -> Seq<Seq<char>> {
    Seq::new(rows.len(), |i: int| rows[i].sha@)
}

/// Rows per stratum, in report order.
pub open spec fn row_counts(rows: Seq<SubsampleRow>) -> Seq<usize> {
    Seq::new(STRATUM_COUNT as nat, |k: int| row_members(rows, stratum_at(k)).len() as usize)
}

/// Domain separator of the subset seeds, so they never equal a sample's.
pub open spec fn subsample_domain() -> Seq<char> {
    "tga-eval-subsample\0"@
}

/// Seed of one stratum's subset shuffle.
pub open spec fn subsample_seed_of(seed: u64, stratum: Stratum) -> u64 {
    spec_u64_from_le_bytes(
        blake3_digest(
            encode_utf8(subsample_domain()) + spec_u64_to_le_bytes(seed) + encode_utf8(
                stratum_label(stratum),
            ),
        ).take(8),
    )
}

/// Order in which the rows of stratum `k` enter the subset: sorted by SHA,
/// then shuffled with the stratum's subset seed.
pub open spec fn subset_order(rows: Seq<SubsampleRow>, seed: u64, k: int) -> Seq<usize> {
    shuffled(
        sort_by_key(row_keys(rows), row_members(rows, stratum_at(k))),
        subsample_seed_of(seed, stratum_at(k)),
    )
}

/// Subset rows of stratum `k` (Hamilton share of `size`).
pub open spec fn subset_share(rows: Seq<SubsampleRow>, size: usize, k: int) -> int {
    hamilton_share(size as int, row_counts(rows), k)
}

/// Row `j` is in the subset: among the first `share` rows of some
/// stratum's order.
pub open spec fn in_subset(rows: Seq<SubsampleRow>, size: usize, seed: u64, j: int) -> bool {
    exists|k: int|
        0 <= k < STRATUM_COUNT && #[trigger] subset_order(rows, seed, k).take(
            subset_share(rows, size, k),
        ).contains(j as usize)
}

/// An earlier row has the SHA of row `j`.
pub open spec fn seen_before(rows: Seq<SubsampleRow>, j: int) -> bool {
    exists|i: int| 0 <= i < j && #[trigger] rows[i].sha@ == rows[j].sha@
}

/// Position of the first row at `j` or later whose SHA an earlier row
/// already has.
pub open spec fn first_duplicate(rows: Seq<SubsampleRow>, j: int) -> Option<int>
    decreases rows.len() - j,
{
    if j < 0 || j >= rows.len() {
        None
    } else if seen_before(rows, j) {
        Some(j)
    } else {
        first_duplicate(rows, j + 1)
    }
}

/// The first stratum at position `k` or later that has rows but no
/// population in `strata`.
pub open spec fn missing_population(rows: Seq<SubsampleRow>, strata: Seq<(String, StratumCounts)>, k: int) -> Option<Stratum>
    decreases STRATUM_COUNT - k,
{
    if k < 0 || k >= STRATUM_COUNT {
        None
    } else if row_members(rows, stratum_at(k)).len() > 0 && population_in(strata, stratum_label(stratum_at(k)))
        == 0 {
        Some(stratum_at(k))
    } else {
        missing_population(rows, strata, k + 1)
    }
}

/// Subset rows recorded under the label `key`: the share of the stratum
/// with that label, 0 for a key that names no stratum.
pub open spec fn share_for_label(shares: Seq<usize>, key: Seq<char>, k: int) -> u64
    decreases STRATUM_COUNT - k,
{
    if k < 0 || k >= STRATUM_COUNT {
        0
    } else if stratum_label(stratum_at(k)) == key {
        shares[k] as u64
    } else {
        share_for_label(shares, key, k + 1)
    }
}

/// Number of `true` entries.
pub open spec fn count_true(v: Seq<bool>) -> int
    decreases v.len(),
{
    if v.len() == 0 {
        0
    } else {
        count_true(v.drop_last()) + if v.last() {
            1int
        } else {
            0
        }
    }
}

/// Split `size` across groups in proportion to `counts` (Hamilton's method).
///
/// `min(size, total)` rows are apportioned, the total counted exactly: each
/// group gets `floor(min(size, total) * count / total)`; the rows left over
/// go one each to the largest fractional remainders, ties to the earlier
/// group.
pub fn largest_remainder(size: usize, counts: &[usize]) -> (alloc: Vec<usize>)
    ensures
        alloc.len() == counts.len(),
        total(counts@) == 0 ==> forall|i: int| 0 <= i < counts.len() ==> alloc[i] == 0,
        total(counts@) > 0 ==> forall|i: int|
            0 <= i < counts.len() ==> #[trigger] alloc[i] == hamilton_share(size as int, counts@, i),
{
    let n = counts.len();
    let ghost c = counts@;
    let mut tot: u128 = 0;
    let mut i: usize = 0;
    while i < n
        invariant
            n == c.len(),
            c == counts@,
            i <= n,
            tot as int == total(c.take(i as int)),
            tot as int <= i as int * usize::MAX as int,
        decreases n - i,
    {
        assert(c.take(i as int + 1).drop_last() == c.take(i as int));
        proof {
            assert((i as int + 1) * usize::MAX as int == i as int * usize::MAX as int + usize::MAX as int)
                by (nonlinear_arith);
            assert(i as int * usize::MAX as int <= usize::MAX as int * usize::MAX as int) by (nonlinear_arith)
                requires
                    i <= usize::MAX,
            ;
            assert(usize::MAX as int * usize::MAX as int + usize::MAX as int <= u128::MAX) by (nonlinear_arith)
                requires
                    usize::MAX <= u64::MAX,
            ;
        }
        tot = tot + counts[i] as u128;
        i = i + 1;
    }
    assert(c.take(n as int) == c);
    let mut alloc: Vec<usize> = Vec::new();
    if tot == 0 {
        let mut k: usize = 0;
        while k < n
            invariant
                k <= n,
                alloc.len() == k,
                forall|j: int| 0 <= j < k ==> alloc[j] == 0,
            decreases n - k,
        {
            alloc.push(0);
            k = k + 1;
        }
        return alloc;
    }
    let s: usize = if (size as u128) < tot {
        size
    } else {
        tot as usize
    };
    assert(s as int == clipped_size(size as int, c));
    // Whole quotas and their remainders.
    let mut rems: Vec<u128> = Vec::new();
    let mut qsum: usize = 0;
    let mut k: usize = 0;
    while k < n
        invariant
            n == c.len(),
            c == counts@,
            tot as int == total(c),
            tot > 0,
            s as int == clipped_size(size as int, c),
            s <= size,
            k <= n,
            alloc.len() == k,
            rems.len() == k,
            forall|j: int| 0 <= j < k ==> #[trigger] alloc[j] == quota(size as int, c, j),
            forall|j: int| 0 <= j < k ==> #[trigger] rems[j] == quota_rem(size as int, c, j),
            qsum as int == quota_sum(size as int, c, k as int),
            qsum as int * tot as int <= s as int * total(c.take(k as int)),
            qsum <= s,
        decreases n - k,
    {
        proof {
            assert(s as int * counts[k as int] as int <= usize::MAX as int * usize::MAX as int)
                by (nonlinear_arith)
                requires
                    s <= usize::MAX,
                    counts[k as int] <= usize::MAX,
            ;
            assert(usize::MAX as int * usize::MAX as int <= u128::MAX) by (nonlinear_arith)
                requires
                    usize::MAX <= u64::MAX,
            ;
        }
        let prod: u128 = (s as u128) * (counts[k] as u128);
        let q: u128 = prod / tot;
        let r: u128 = prod % tot;
        proof {
            assert(c.take(k as int + 1).drop_last() == c.take(k as int));
            vstd::arithmetic::div_mod::lemma_fundamental_div_mod(prod as int, tot as int);
            assert(q as int * tot as int <= prod as int) by (nonlinear_arith)
                requires
                    q as int == prod as int / tot as int,
                    tot > 0,
            ;
            assert((qsum as int + q as int) * tot as int <= s as int * total(c.take(k as int + 1)))
                by (nonlinear_arith)
                requires
                    qsum as int * tot as int <= s as int * total(c.take(k as int)),
                    q as int * tot as int <= prod as int,
                    prod as int == s as int * c[k as int],
                    total(c.take(k as int + 1)) == total(c.take(k as int)) + c[k as int],
            ;
            lemma_prefix_total_le(c, k as int + 1);
            assert(s as int * total(c.take(k as int + 1)) <= s as int * tot as int) by (nonlinear_arith)
                requires
                    total(c.take(k as int + 1)) <= tot as int,
            ;
            assert(qsum as int + q as int <= s as int) by (nonlinear_arith)
                requires
                    (qsum as int + q as int) * tot as int <= s as int * tot as int,
                    tot > 0,
            ;
        }
        alloc.push(q as usize);
        rems.push(r);
        qsum = qsum + q as usize;
        k = k + 1;
    }
    let left: usize = s - qsum;
    assert(left as int == leftover(size as int, c));
    // Top up the groups whose rank in the remainder order is below `left`.
    let ghost quotas = alloc@;
    let mut g: usize = 0;
    while g < n
        invariant
            n == c.len(),
            c == counts@,
            tot as int == total(c),
            tot > 0,
            g <= n,
            alloc.len() == n,
            rems.len() == n,
            quotas.len() == n,
            forall|j: int| 0 <= j < n ==> #[trigger] rems[j] == quota_rem(size as int, c, j),
            forall|j: int| 0 <= j < n ==> quotas[j] == quota(size as int, c, j),
            left as int == leftover(size as int, c),
            forall|j: int| 0 <= j < g ==> #[trigger] alloc[j] == hamilton_share(size as int, c, j),
            forall|j: int| g <= j < n ==> #[trigger] alloc[j] == quotas[j],
        decreases n - g,
    {
        let mut rank: usize = 0;
        let mut h: usize = 0;
        while h < n
            invariant
                n == c.len(),
                rems.len() == n,
                forall|j: int| 0 <= j < n ==> #[trigger] rems[j] == quota_rem(size as int, c, j),
                g < n,
                h <= n,
                rank <= h,
                rank as int == count_before(size as int, c, g as int, h as int),
            decreases n - h,
        {
            if rems[h] > rems[g] || (rems[h] == rems[g] && h < g) {
                rank = rank + 1;
            }
            h = h + 1;
        }
        if rank < left {
            proof {
                crate::eval::hamilton::lemma_topped_up_below_count(size as int, c, g as int);
            }
            let v = alloc[g] + 1;
            alloc.set(g, v);
        }
        g = g + 1;
    }
    alloc
}

/// Seed of one stratum's subset shuffle, domain-separated from a sample's.
fn subsample_seed(seed: u64, stratum: Stratum) -> (r: u64)
    ensures
        r == subsample_seed_of(seed, stratum),
{
    let mut data: Vec<u8> = Vec::new();
    push_str_bytes(&mut data, "tga-eval-subsample\0");
    let le = u64_to_le_bytes(seed);
    let ghost start = data@;
    let mut i: usize = 0;
    while i < le.len()
        invariant
            i <= le@.len(),
            data@ == start + le@.take(i as int),
        decreases le.len() - i,
    {
        assert(le@.take(i as int + 1) == le@.take(i as int).push(le@[i as int]));
        data.push(le[i]);
        i = i + 1;
    }
    assert(le@.take(le@.len() as int) == le@);
    push_str_bytes(&mut data, stratum.as_str());
    let digest = blake3_hash(data.as_slice());
    digest_prefix_u64(&digest)
}

/// Positions of the rows in `stratum`, in order.
fn collect_row_members(rows: &[SubsampleRow], stratum: Stratum) -> (m: Vec<usize>)
    ensures
        m@ == row_members(rows@, stratum),
        forall|p: int| 0 <= p < m.len() ==> #[trigger] m[p] < rows.len(),
{
    let mut m: Vec<usize> = Vec::new();
    let mut i: usize = 0;
    while i < rows.len()
        invariant
            i <= rows.len(),
            m@ == row_members(rows@.take(i as int), stratum),
            forall|p: int| 0 <= p < m.len() ==> #[trigger] m[p] < i,
        decreases rows.len() - i,
    {
        assert(rows@.take(i as int + 1).drop_last() == rows@.take(i as int));
        if rows[i].stratum == stratum {
            m.push(i);
        }
        i = i + 1;
    }
    assert(rows@.take(rows.len() as int) == rows@);
    m
}

/// Row `j` is among the first `share` rows of the order of some stratum
/// before position `kmax`.
pub open spec fn in_subset_upto(rows: Seq<SubsampleRow>, size: usize, seed: u64, kmax: int, j: int) -> bool {
    exists|k: int|
        0 <= k < kmax && #[trigger] subset_order(rows, seed, k).take(subset_share(rows, size, k)).contains(
            j as usize,
        )
}

/// Draw the subset: refuse a size of zero or above the source rows, a
/// duplicated SHA, or a stratum with rows but no population; otherwise give
/// each stratum its Hamilton share of `size` and take that many of its
/// rows, sorted by SHA and shuffled with a seed derived from `seed`. The
/// returned summary records each stratum's subset rows and the subset's
/// origin; every other field is the source summary's.
pub fn run_subsample(params: &SubsampleParams, rows: &[SubsampleRow], source_strata: StrataSummary) -> (r:
    Result<SubsampleSelection, SubsampleError>)
    ensures
        (params.size == 0 || params.size > rows.len()) ==> (r matches Err(
            SubsampleError::SizeOutOfRange { size, rows: n },
        ) && size == params.size && n == rows.len()),
        !(params.size == 0 || params.size > rows.len()) && first_duplicate(rows@, 0) is Some ==> (r matches Err(
            SubsampleError::DuplicateSha(sha),
        ) && sha@ == rows@[first_duplicate(rows@, 0)->0].sha@),
        !(params.size == 0 || params.size > rows.len()) && first_duplicate(rows@, 0) is None
            && missing_population(rows@, source_strata.strata@, 0) is Some ==> r == Err::<
            SubsampleSelection,
            SubsampleError,
        >(SubsampleError::MissingPopulation(missing_population(rows@, source_strata.strata@, 0)->0)),
        !(params.size == 0 || params.size > rows.len()) && first_duplicate(rows@, 0) is None
            && missing_population(rows@, source_strata.strata@, 0) is None ==> (r matches Ok(sel) && {
            &&& sel.keep.len() == rows.len()
            &&& forall|j: int|
                0 <= j < rows.len() ==> #[trigger] sel.keep[j] == in_subset(rows@, params.size, params.seed, j)
            &&& sel.taken.len() == STRATUM_COUNT
            &&& crate::eval::water::sum_usize(sel.taken@) == params.size
            &&& forall|k: int|
                0 <= k < STRATUM_COUNT ==> #[trigger] sel.taken[k] == subset_share(rows@, params.size, k)
            &&& sel.strata.seed == source_strata.seed
            &&& sel.strata.weeks == source_strata.weeks
            &&& sel.strata.window_start == source_strata.window_start
            &&& sel.strata.window_end == source_strata.window_end
            &&& sel.strata.requested_size == source_strata.requested_size
            &&& sel.strata.cap == source_strata.cap
            &&& sel.strata.population == source_strata.population
            &&& sel.strata.merges_excluded == source_strata.merges_excluded
            &&& sel.strata.categories == source_strata.categories
            &&& sel.strata.strata.len() == source_strata.strata.len()
            &&& forall|q: int|
                0 <= q < source_strata.strata.len() ==> (#[trigger] sel.strata.strata[q]).0
                    == source_strata.strata[q].0 && sel.strata.strata[q].1.population
                    == source_strata.strata[q].1.population && sel.strata.strata[q].1.sampled
                    == share_for_label(sel.taken@, source_strata.strata[q].0@, 0)
            &&& sel.strata.subsample == Some(
                SubsampleOrigin {
                    seed: params.seed,
                    size: count_true(sel.keep@) as u64,
                    source_size: rows.len() as u64,
                },
            )
        }),
{
    let n = rows.len();
    let size = params.size;
    if size == 0 || size > n {
        return Err(SubsampleError::SizeOutOfRange { size, rows: n });
    }
    // the first row whose SHA an earlier row has
    let mut j: usize = 0;
    while j < n
        invariant
            j <= n,
            n == rows.len(),
            size == params.size,
            0 < size <= n,
            first_duplicate(rows@, 0) == first_duplicate(rows@, j as int),
        decreases n - j,
    {
        let mut i: usize = 0;
        while i < j
            invariant
                i <= j < n,
                n == rows.len(),
                size == params.size,
                0 < size <= n,
                first_duplicate(rows@, 0) == first_duplicate(rows@, j as int),
                forall|q: int| 0 <= q < i ==> rows@[q].sha@ != rows@[j as int].sha@,
            decreases j - i,
        {
            if rows[i].sha == rows[j].sha {
                assert(seen_before(rows@, j as int));
                return Err(SubsampleError::DuplicateSha(rows[j].sha.clone()));
            }
            i = i + 1;
        }
        assert(!seen_before(rows@, j as int));
        j = j + 1;
    }
    assert(first_duplicate(rows@, n as int) is None);
    let ghost rs = rows@;
    // members and counts per stratum, and the population check
    let mut members: Vec<Vec<usize>> = Vec::new();
    let mut counts: Vec<usize> = Vec::new();
    let mut k: usize = 0;
    while k < STRATUM_COUNT
        invariant
            rs == rows@,
            n == rows.len(),
            size == params.size,
            0 < size <= n,
            first_duplicate(rows@, 0) is None,
            k <= STRATUM_COUNT,
            members.len() == k,
            counts.len() == k,
            forall|q: int| 0 <= q < k ==> #[trigger] members[q]@ == row_members(rs, stratum_at(q)),
            forall|q: int| 0 <= q < k ==> #[trigger] counts[q] == members[q].len(),
            forall|q: int, p: int|
                0 <= q < k && 0 <= p < members[q].len() ==> #[trigger] members[q][p] < n,
            missing_population(rs, source_strata.strata@, 0) == missing_population(
                rs,
                source_strata.strata@,
                k as int,
            ),
        decreases STRATUM_COUNT - k,
    {
        let stratum = Stratum::from_index(k);
        let m = collect_row_members(rows, stratum);
        if m.len() > 0 && source_strata.population_of(stratum) == 0 {
            return Err(SubsampleError::MissingPopulation(stratum));
        }
        counts.push(m.len());
        members.push(m);
        k = k + 1;
    }
    assert(counts@ =~= row_counts(rs));
    let alloc = largest_remainder(size, counts.as_slice());
    proof {
        crate::eval::hamilton::lemma_hamilton_laws(size as int, counts@, alloc@);
        lemma_counts_total(rs);
        assert(crate::eval::water::total(counts@) == n);
        assert(crate::eval::water::sum_usize(alloc@) == size);
    }
    let ghost alloc_view = alloc@;
    // keys for the SHA order
    let mut keys: Vec<Vec<char>> = Vec::new();
    let mut i: usize = 0;
    while i < n
        invariant
            rs == rows@,
            n == rows.len(),
            i <= n,
            keys.len() == i,
            forall|q: int| 0 <= q < i ==> #[trigger] keys[q]@ == row_keys(rs)[q],
        decreases n - i,
    {
        keys.push(chars_of(rows[i].sha.as_str()));
        i = i + 1;
    }
    let mut keep: Vec<bool> = Vec::new();
    let mut i: usize = 0;
    while i < n
        invariant
            i <= n,
            keep.len() == i,
            forall|q: int| 0 <= q < i ==> !#[trigger] keep[q],
        decreases n - i,
    {
        keep.push(false);
        i = i + 1;
    }
    let mut k: usize = 0;
    while k < STRATUM_COUNT
        invariant
            rs == rows@,
            n == rows.len(),
            k <= STRATUM_COUNT,
            members.len() == STRATUM_COUNT,
            counts.len() == STRATUM_COUNT,
            alloc.len() == STRATUM_COUNT,
            keys.len() == n,
            forall|q: int| 0 <= q < n ==> #[trigger] keys[q]@ == row_keys(rs)[q],
            forall|q: int| 0 <= q < STRATUM_COUNT ==> #[trigger] members[q]@ == row_members(rs, stratum_at(q)),
            forall|q: int| 0 <= q < STRATUM_COUNT ==> #[trigger] counts[q] == members[q].len(),
            forall|q: int, p: int|
                0 <= q < STRATUM_COUNT && 0 <= p < members[q].len() ==> #[trigger] members[q][p] < n,
            forall|q: int| 0 <= q < STRATUM_COUNT ==> #[trigger] alloc[q] <= counts[q],
            forall|q: int| 0 <= q < STRATUM_COUNT ==> #[trigger] alloc[q] == subset_share(rs, size, q),
            keep.len() == n,
            forall|q: int| 0 <= q < n ==> #[trigger] keep[q] == in_subset_upto(rs, size, params.seed, k as int, q),
        decreases STRATUM_COUNT - k,
    {
        let stratum = Stratum::from_index(k);
        let mut order = sort_by_keys(&keys, Ghost(row_keys(rs)), &members[k]);
        let ghost sorted = order@;
        proof {
            lemma_sort_bounds(row_keys(rs), members[k as int]@);
        }
        let seed = subsample_seed(params.seed, stratum);
        seeded_shuffle(order.as_mut_slice(), seed);
        proof {
            crate::eval::rng::lemma_shuffle_permutes(sorted, seed);
            assert(order@ == subset_order(rs, params.seed, k as int));
            assert forall|p: int| 0 <= p < order.len() implies #[trigger] order[p] < n by {
                broadcast use vstd::seq_lib::to_multiset_contains;
                assert(order@.contains(order@[p]));
                assert(sorted.to_multiset().count(order@[p]) > 0);
                let q = choose|q: int| 0 <= q < sorted.len() && sorted[q] == order@[p];
            }
        }
        let take = alloc[k];
        let ghost before = keep@;
        let mut p: usize = 0;
        while p < take
            invariant
                take <= order.len(),
                p <= take,
                keep.len() == n,
                forall|q: int| 0 <= q < order.len() ==> #[trigger] order[q] < n,
                forall|q: int| 0 <= q < n ==> #[trigger] keep[q] == (before[q] || order@.take(p as int).contains(
                    q as usize,
                )),
            decreases take - p,
        {
            let ghost prev = keep@;
            keep.set(order[p], true);
            proof {
                assert forall|q: int| 0 <= q < n implies #[trigger] keep[q] == (before[q] || order@.take(
                    p as int + 1,
                ).contains(q as usize)) by {
                    let t0 = order@.take(p as int);
                    let t1 = order@.take(p as int + 1);
                    assert(t1 == t0.push(order@[p as int]));
                    if t1.contains(q as usize) && q as usize != order@[p as int] {
                        let w = choose|w: int| 0 <= w < t1.len() && t1[w] == q as usize;
                        assert(t0[w] == q as usize);
                    }
                    if t0.contains(q as usize) {
                        let w = choose|w: int| 0 <= w < t0.len() && t0[w] == q as usize;
                        assert(t1[w] == q as usize);
                    }
                    if q as usize == order@[p as int] {
                        assert(t1[p as int] == q as usize);
                    }
                }
            }
            p = p + 1;
        }
        proof {
            assert forall|q: int| 0 <= q < n implies #[trigger] keep[q] == in_subset_upto(
                rs,
                size,
                params.seed,
                k as int + 1,
                q,
            ) by {
                if in_subset_upto(rs, size, params.seed, k as int + 1, q) {
                    let k2 = choose|k2: int|
                        0 <= k2 < k + 1 && #[trigger] subset_order(rs, params.seed, k2).take(
                            subset_share(rs, size, k2),
                        ).contains(q as usize);
                    if k2 < k {
                        assert(in_subset_upto(rs, size, params.seed, k as int, q));
                    }
                }
                if before[q] {
                    let k2 = choose|k2: int|
                        0 <= k2 < k && #[trigger] subset_order(rs, params.seed, k2).take(
                            subset_share(rs, size, k2),
                        ).contains(q as usize);
                    assert(subset_order(rs, params.seed, k2).take(subset_share(rs, size, k2)).contains(
                        q as usize,
                    ));
                }
                if order@.take(take as int).contains(q as usize) {
                    assert(subset_order(rs, params.seed, k as int).take(subset_share(rs, size, k as int)).contains(
                        q as usize,
                    ));
                }
            }
        }
        k = k + 1;
    }
    // record each stratum's subset rows under its label
    let mut strata = source_strata;
    let ghost src = strata.strata@;
    let mut entries: Vec<(String, StratumCounts)> = Vec::new();
    let mut q: usize = 0;
    while q < strata.strata.len()
        invariant
            strata.strata@ == src,
            alloc.len() == STRATUM_COUNT,
            q <= src.len(),
            entries.len() == q,
            forall|w: int|
                0 <= w < q ==> (#[trigger] entries[w]).0 == src[w].0 && entries[w].1.population
                    == src[w].1.population && entries[w].1.sampled == share_for_label(alloc@, src[w].0@, 0),
        decreases src.len() - q,
    {
        let key = strata.strata[q].0.clone();
        let mut counts_q = strata.strata[q].1;
        counts_q.sampled = sampled_for_label(&alloc, key.as_str());
        entries.push((key, counts_q));
        q = q + 1;
    }
    strata.strata = entries;
    // count the subset rows
    let mut kept: usize = 0;
    let mut i: usize = 0;
    while i < n
        invariant
            keep.len() == n,
            i <= n,
            kept as int == count_true(keep@.take(i as int)),
            kept <= i,
        decreases n - i,
    {
        assert(keep@.take(i as int + 1).drop_last() == keep@.take(i as int));
        if keep[i] {
            kept = kept + 1;
        }
        i = i + 1;
    }
    assert(keep@.take(n as int) == keep@);
    strata.subsample = Some(SubsampleOrigin { seed: params.seed, size: kept as u64, source_size: n as u64 });
    proof {
        assert forall|j: int| 0 <= j < n implies #[trigger] keep[j] == in_subset(rs, size, params.seed, j) by {
            assert(in_subset_upto(rs, size, params.seed, STRATUM_COUNT as int, j) == in_subset(
                rs,
                size,
                params.seed,
                j,
            ));
        }
    }
    assert(alloc@ == alloc_view);
    Ok(SubsampleSelection { keep, taken: alloc, strata })
}

/// Subset rows recorded under the label `key`.
fn sampled_for_label(alloc: &Vec<usize>, key: &str) -> (v: u64)
    requires
        alloc.len() == STRATUM_COUNT,
    ensures
        v == share_for_label(alloc@, key@, 0),
{
    let mut k: usize = 0;
    while k < STRATUM_COUNT
        invariant
            alloc.len() == STRATUM_COUNT,
            k <= STRATUM_COUNT,
            share_for_label(alloc@, key@, 0) == share_for_label(alloc@, key@, k as int),
        decreases STRATUM_COUNT - k,
    {
        let stratum = Stratum::from_index(k);
        if str_eq(stratum.as_str(), key) {
            return alloc[k] as u64;
        }
        k = k + 1;
    }
    0
}

proof fn lemma_total_step(c: Seq<usize>, k: int)
    requires
        0 <= k < c.len(),
    ensures
        total(c.take(k + 1)) == total(c.take(k)) + c[k],
{
    assert(c.take(k + 1).drop_last() == c.take(k));
}

proof fn lemma_members_len(rows: Seq<SubsampleRow>, s: Stratum)
    ensures
        row_members(rows, s).len() <= rows.len(),
    decreases rows.len(),
{
    if rows.len() > 0 {
        lemma_members_len(rows.drop_last(), s);
    }
}

proof fn lemma_counts_total(rows: Seq<SubsampleRow>)
    requires
        rows.len() <= usize::MAX,
    ensures
        total(row_counts(rows)) == rows.len(),
{
    lemma_row_partition(rows);
    let c = row_counts(rows);
    assert forall|k: int| 0 <= k < STRATUM_COUNT implies #[trigger] c[k] == row_members(rows, stratum_at(k)).len() by {
        lemma_members_len(rows, stratum_at(k));
    }
    assert(c.take(0) =~= Seq::<usize>::empty());
    lemma_total_step(c, 0);
    lemma_total_step(c, 1);
    lemma_total_step(c, 2);
    lemma_total_step(c, 3);
    lemma_total_step(c, 4);
    lemma_total_step(c, 5);
    lemma_total_step(c, 6);
    lemma_total_step(c, 7);
    lemma_total_step(c, 8);
    assert(c.take(9) == c);
}

proof fn lemma_row_partition(rows: Seq<SubsampleRow>)
    ensures
        row_members(rows, Stratum::Exact).len() + row_members(rows, Stratum::RegexHigh).len() + row_members(
            rows,
            Stratum::RegexMid,
        ).len() + row_members(rows, Stratum::RegexOther).len() + row_members(rows, Stratum::WeightedSum).len()
            + row_members(rows, Stratum::Fuzzy).len() + row_members(rows, Stratum::CatchAll).len()
            + row_members(rows, Stratum::Unknown).len() + row_members(rows, Stratum::Other).len() == rows.len(),
    decreases rows.len(),
{
    if rows.len() > 0 {
        lemma_row_partition(rows.drop_last());
    }
}

proof fn lemma_prefix_total_le(c: Seq<usize>, k: int)
    requires
        0 <= k <= c.len(),
    ensures
        total(c.take(k)) <= total(c),
        total(c.take(k)) >= 0,
    decreases c.len(),
{
    if k == c.len() {
        assert(c.take(k) == c);
        lemma_total_nonneg(c);
    } else {
        assert(c.take(k) == c.drop_last().take(k));
        lemma_prefix_total_le(c.drop_last(), k);
    }
}

proof fn lemma_total_nonneg(c: Seq<usize>)
    ensures
        total(c) >= 0,
    decreases c.len(),
{
    if c.len() > 0 {
        lemma_total_nonneg(c.drop_last());
    }
}

/// The rows as draw candidates (SHA in every text field), so the draw's
/// reordering facts apply to them.
pub open spec fn row_cands(rows: Seq<SubsampleRow>) -> Seq<crate::eval::draw::Candidate> {
    Seq::new(
        rows.len(),
        |i: int| crate::eval::draw::Candidate {
            sha: rows[i].sha,
            repo: rows[i].sha,
            author: rows[i].sha,
            stratum: rows[i].stratum,
        },
    )
}

/// The SHAs at positions `idx`.
pub open spec fn shas_at(rows: Seq<SubsampleRow>, idx: Seq<usize>) -> Seq<Seq<char>> {
    idx.map_values(|j: usize| rows[j as int].sha@)
}

proof fn lemma_row_cands_members(rows: Seq<SubsampleRow>, s: Stratum)
    ensures
        crate::eval::draw::members(row_cands(rows), s) == row_members(rows, s),
    decreases rows.len(),
{
    if rows.len() > 0 {
        lemma_row_cands_members(rows.drop_last(), s);
        assert(row_cands(rows).drop_last() =~= row_cands(rows.drop_last()));
    }
}

/// Every row of `a` has a row of `b` with its SHA and stratum.
pub open spec fn rows_cover(a: Seq<SubsampleRow>, b: Seq<SubsampleRow>) -> bool {
    forall|i: int|
        0 <= i < a.len() ==> exists|j: int|
            0 <= j < b.len() && b[j].sha@ == (#[trigger] a[i]).sha@ && b[j].stratum == a[i].stratum
}

/// Same rows, in any order: each list covers the other.
pub open spec fn same_rows(a: Seq<SubsampleRow>, b: Seq<SubsampleRow>) -> bool {
    rows_cover(a, b) && rows_cover(b, a)
}

/// No two rows share a SHA.
pub open spec fn unique_shas(a: Seq<SubsampleRow>) -> bool {
    forall|i: int, j: int| 0 <= i < j < a.len() ==> a[i].sha@ != a[j].sha@
}

proof fn lemma_rows_cover_cands(a: Seq<SubsampleRow>, b: Seq<SubsampleRow>)
    requires
        rows_cover(a, b),
    ensures
        crate::eval::reorder::covers(row_cands(a), row_cands(b)),
{
    assert forall|i: int| 0 <= i < row_cands(a).len() implies #[trigger] crate::eval::reorder::listed(
        row_cands(b),
        row_cands(a)[i],
    ) by {
        let r = a[i];
        let j = choose|j: int| 0 <= j < b.len() && b[j].sha@ == r.sha@ && b[j].stratum == r.stratum;
        assert(crate::eval::reorder::same_view(row_cands(b)[j], row_cands(a)[i]));
    }
}

proof fn lemma_unique_cands(a: Seq<SubsampleRow>)
    requires
        unique_shas(a),
    ensures
        crate::eval::reorder::distinct_shas(row_cands(a)),
{
}

proof fn lemma_rows_as_cands(a: Seq<SubsampleRow>, b: Seq<SubsampleRow>)
    requires
        unique_shas(a),
        unique_shas(b),
        same_rows(a, b),
    ensures
        crate::eval::reorder::distinct_shas(row_cands(a)),
        crate::eval::reorder::distinct_shas(row_cands(b)),
        crate::eval::reorder::same_candidates(row_cands(a), row_cands(b)),
{
    lemma_unique_cands(a);
    lemma_unique_cands(b);
    lemma_rows_cover_cands(a, b);
    lemma_rows_cover_cands(b, a);
}

proof fn lemma_row_members_below(rows: Seq<SubsampleRow>, s: Stratum)
    ensures
        forall|p: int| 0 <= p < row_members(rows, s).len() ==> #[trigger] row_members(rows, s)[p] < rows.len(),
    decreases rows.len(),
{
    if rows.len() > 0 {
        let d = rows.drop_last();
        lemma_row_members_below(d, s);
        let rest = row_members(d, s);
        let m = row_members(rows, s);
        assert forall|p: int| 0 <= p < m.len() implies #[trigger] m[p] < rows.len() by {
            if rows.last().stratum == s {
                assert(m == rest.push((rows.len() - 1) as usize));
                if p < rest.len() {
                    assert(m[p] == rest[p]);
                }
            } else {
                assert(m == rest);
            }
        }
    }
}

proof fn lemma_order_below(rows: Seq<SubsampleRow>, seed: u64, k: int)
    requires
        rows.len() <= usize::MAX,
        0 <= k < STRATUM_COUNT,
    ensures
        forall|p: int| 0 <= p < subset_order(rows, seed, k).len() ==> #[trigger] subset_order(rows, seed, k)[p] < rows.len(),
{
    broadcast use vstd::seq_lib::group_to_multiset_ensures;
    let m = row_members(rows, stratum_at(k));
    lemma_row_members_below(rows, stratum_at(k));
    lemma_members_len(rows, stratum_at(k));
    lemma_sort_bounds(row_keys(rows), m);
    let sorted = sort_by_key(row_keys(rows), m);
    let sh = subset_order(rows, seed, k);
    crate::eval::rng::lemma_shuffle_permutes(sorted, subsample_seed_of(seed, stratum_at(k)));
    assert forall|p: int| 0 <= p < sh.len() implies #[trigger] sh[p] < rows.len() by {
        assert(sh.contains(sh[p]));
        assert(sh.to_multiset().count(sh[p]) > 0);
        assert(sorted.contains(sh[p]));
    }
}

proof fn lemma_stratum_order_agrees(a: Seq<SubsampleRow>, b: Seq<SubsampleRow>, seed: u64, k: int)
    requires
        a.len() <= usize::MAX,
        b.len() <= usize::MAX,
        0 <= k < STRATUM_COUNT,
        crate::eval::reorder::distinct_shas(row_cands(a)),
        crate::eval::reorder::distinct_shas(row_cands(b)),
        crate::eval::reorder::same_candidates(row_cands(a), row_cands(b)),
    ensures
        shas_at(a, subset_order(a, seed, k)) == shas_at(b, subset_order(b, seed, k)),
        row_members(a, stratum_at(k)).len() == row_members(b, stratum_at(k)).len(),
{
    let ca = row_cands(a);
    let cb = row_cands(b);
    assert(crate::eval::draw::sha_keys(ca) =~= row_keys(a));
    assert(crate::eval::draw::sha_keys(cb) =~= row_keys(b));
    let st = stratum_at(k);
    let sd = subsample_seed_of(seed, st);
    lemma_row_cands_members(a, st);
    lemma_row_cands_members(b, st);
    crate::eval::reorder::lemma_shuffled_members_agree(ca, cb, st, sd);
    let oa = subset_order(a, seed, k);
    let ob = subset_order(b, seed, k);
    let va = crate::eval::reorder::views_at(ca, oa);
    let vb = crate::eval::reorder::views_at(cb, ob);
    lemma_order_below(a, seed, k);
    lemma_order_below(b, seed, k);
    assert(shas_at(a, oa) =~= va.map_values(|v: (Seq<char>, Seq<char>, Seq<char>, Stratum)| v.0));
    assert(shas_at(b, ob) =~= vb.map_values(|v: (Seq<char>, Seq<char>, Seq<char>, Stratum)| v.0));
}

/// The subset does not depend on the order of the source rows: two row
/// lists holding the same rows (SHA and stratum, SHAs unique) in any order
/// give every stratum the same share, and the same SHAs, in the same order,
/// enter the subset from it. (Rows are sorted by SHA before the seeded
/// shuffle.)
#[verifier::rlimit(50)]
pub proof fn lemma_subset_ignores_row_order(a: Seq<SubsampleRow>, b: Seq<SubsampleRow>, size: usize, seed: u64)
    requires
        a.len() <= usize::MAX,
        b.len() <= usize::MAX,
        unique_shas(a),
        unique_shas(b),
        same_rows(a, b),
    ensures
        forall|k: int| 0 <= k < STRATUM_COUNT ==> #[trigger] subset_share(a, size, k) == subset_share(b, size, k),
        forall|k: int|
            0 <= k < STRATUM_COUNT ==> #[trigger] shas_at(a, subset_order(a, seed, k)) == shas_at(
                b,
                subset_order(b, seed, k),
            ),
{
    lemma_rows_as_cands(a, b);
    assert forall|k: int| 0 <= k < STRATUM_COUNT implies #[trigger] shas_at(a, subset_order(a, seed, k)) == shas_at(
        b,
        subset_order(b, seed, k),
    ) && row_members(a, stratum_at(k)).len() == row_members(b, stratum_at(k)).len() by {
        lemma_stratum_order_agrees(a, b, seed, k);
    }
    assert forall|k: int| 0 <= k < STRATUM_COUNT implies #[trigger] row_members(a, stratum_at(k)).len() == row_members(
        b,
        stratum_at(k),
    ).len() by {
        lemma_stratum_order_agrees(a, b, seed, k);
    }
    assert(row_counts(a) =~= row_counts(b));
}

proof fn lemma_order_len(rows: Seq<SubsampleRow>, seed: u64, k: int)
    requires
        rows.len() <= usize::MAX,
        0 <= k < STRATUM_COUNT,
    ensures
        subset_order(rows, seed, k).len() == row_counts(rows)[k],
{
    let m = row_members(rows, stratum_at(k));
    lemma_row_members_below(rows, stratum_at(k));
    lemma_members_len(rows, stratum_at(k));
    lemma_sort_bounds(row_keys(rows), m);
    crate::eval::rng::lemma_shuffle_permutes(
        sort_by_key(row_keys(rows), m),
        subsample_seed_of(seed, stratum_at(k)),
    );
}

/// Row `j` is kept ([`in_subset`], held closed so that quantifiers over
/// kept rows stay cheap).
#[verifier::opaque]
pub open spec fn kept(rows: Seq<SubsampleRow>, size: usize, seed: u64, j: int) -> bool {
    in_subset(rows, size, seed, j)
}

/// The SHAs `a` keeps are among those `b` keeps.
pub open spec fn kept_within(a: Seq<SubsampleRow>, b: Seq<SubsampleRow>, size: usize, seed: u64) -> bool {
    forall|i: int|
        0 <= i < a.len() && #[trigger] kept(a, size, seed, i) ==> exists|j: int|
            0 <= j < b.len() && b[j].sha@ == a[i].sha@ && kept(b, size, seed, j)
}

proof fn lemma_kept_one(a: Seq<SubsampleRow>, b: Seq<SubsampleRow>, size: usize, seed: u64, k: int, i: int)
    requires
        a.len() <= usize::MAX,
        b.len() <= usize::MAX,
        0 <= k < STRATUM_COUNT,
        0 <= i < a.len(),
        subset_order(a, seed, k).take(subset_share(a, size, k)).contains(i as usize),
        subset_share(a, size, k) == subset_share(b, size, k),
        shas_at(a, subset_order(a, seed, k)) == shas_at(b, subset_order(b, seed, k)),
    ensures
        exists|j: int| 0 <= j < b.len() && b[j].sha@ == a[i].sha@ && kept(b, size, seed, j),
{
    reveal(kept);
    let oa = subset_order(a, seed, k);
    let ob = subset_order(b, seed, k);
    let sh = subset_share(a, size, k);
    lemma_counts_total(a);
    lemma_order_len(a, seed, k);
    lemma_order_below(b, seed, k);
    crate::eval::hamilton::lemma_share_within_count(size as int, row_counts(a), k);
    assert(sh <= oa.len());
    let ta = oa.take(sh);
    let p = choose|p: int| 0 <= p < ta.len() && ta[p] == i as usize;
    assert(oa[p] == i as usize);
    let sa = shas_at(a, oa);
    let sb = shas_at(b, ob);
    assert(sa.len() == oa.len());
    assert(sb.len() == ob.len());
    assert(sa[p] == a[i].sha@);
    let j = ob[p] as int;
    assert(sb[p] == b[j].sha@);
    assert(0 <= j < b.len());
    let tb = ob.take(subset_share(b, size, k));
    assert(tb[p] == ob[p]);
    assert(tb.contains(j as usize));
    assert(in_subset(b, size, seed, j));
    assert(kept(b, size, seed, j));
}

#[verifier::rlimit(60)]
proof fn lemma_kept_at(a: Seq<SubsampleRow>, b: Seq<SubsampleRow>, size: usize, seed: u64, i: int)
    requires
        a.len() <= usize::MAX,
        b.len() <= usize::MAX,
        unique_shas(a),
        unique_shas(b),
        same_rows(a, b),
        0 <= i < a.len(),
        kept(a, size, seed, i),
    ensures
        exists|j: int| 0 <= j < b.len() && b[j].sha@ == a[i].sha@ && kept(b, size, seed, j),
{
    lemma_kept_stratum(a, size, seed, i);
    let k = choose|k: int|
        0 <= k < STRATUM_COUNT && #[trigger] subset_order(a, seed, k).take(subset_share(a, size, k)).contains(
            i as usize,
        );
    lemma_stratum_agrees(a, b, size, seed, k);
    lemma_kept_one(a, b, size, seed, k, i);
}

proof fn lemma_kept_stratum(a: Seq<SubsampleRow>, size: usize, seed: u64, i: int)
    requires
        kept(a, size, seed, i),
    ensures
        exists|k: int|
            0 <= k < STRATUM_COUNT && #[trigger] subset_order(a, seed, k).take(subset_share(a, size, k)).contains(
                i as usize,
            ),
{
    reveal(kept);
}

proof fn lemma_stratum_agrees(a: Seq<SubsampleRow>, b: Seq<SubsampleRow>, size: usize, seed: u64, k: int)
    requires
        a.len() <= usize::MAX,
        b.len() <= usize::MAX,
        unique_shas(a),
        unique_shas(b),
        same_rows(a, b),
        0 <= k < STRATUM_COUNT,
    ensures
        subset_share(a, size, k) == subset_share(b, size, k),
        shas_at(a, subset_order(a, seed, k)) == shas_at(b, subset_order(b, seed, k)),
{
    lemma_subset_ignores_row_order(a, b, size, seed);
}

proof fn lemma_kept_within(a: Seq<SubsampleRow>, b: Seq<SubsampleRow>, size: usize, seed: u64)
    requires
        a.len() <= usize::MAX,
        b.len() <= usize::MAX,
        unique_shas(a),
        unique_shas(b),
        same_rows(a, b),
    ensures
        kept_within(a, b, size, seed),
{
    assert forall|i: int| 0 <= i < a.len() && #[trigger] kept(a, size, seed, i) implies exists|j: int|
        0 <= j < b.len() && b[j].sha@ == a[i].sha@ && kept(b, size, seed, j) by {
        lemma_kept_at(a, b, size, seed, i);
    }
}

/// The kept SHAs do not depend on the order of the source rows: for two
/// row lists holding the same rows (SHA and stratum, SHAs unique) in any
/// order, a SHA is kept from one exactly when it is kept from the other.
pub proof fn lemma_kept_shas_ignore_row_order(a: Seq<SubsampleRow>, b: Seq<SubsampleRow>, size: usize, seed: u64)
    requires
        a.len() <= usize::MAX,
        b.len() <= usize::MAX,
        unique_shas(a),
        unique_shas(b),
        same_rows(a, b),
    ensures
        kept_within(a, b, size, seed),
        kept_within(b, a, size, seed),
{
    lemma_kept_within(a, b, size, seed);
    lemma_kept_within(b, a, size, seed);
}

} // verus!
