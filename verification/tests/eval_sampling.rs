use tga::eval::plan::{plan_sample, SampleCommit, SampleError, WEEK_SECONDS};
use tga::eval::repredict::ResolvedVerdict;
use std::collections::HashMap;

use tga::classify::trace::TraceTier;
use tga::eval::draw::{allocate, draw, Candidate, Draw, DrawParams};
use tga::eval::records::{ConfidenceBand, Stratum};
use tga::eval::rng::{seeded_shuffle, SplitMix64};
use tga::eval::subsample::largest_remainder;

fn population() -> Vec<Candidate> {
    let strata = [Stratum::Exact, Stratum::RegexHigh, Stratum::CatchAll];
    (0..600)
        .map(|i| Candidate {
            sha: format!("{:040x}", i * 7919),
            repo: format!("repo{}", i % 13),
            author: format!("dev{}", i % 17),
            stratum: strata[i % 3],
        })
        .collect()
}

#[test]
fn allocate_redistributes_small_strata() {
    assert_eq!(allocate(10, &[100, 100, 100]), vec![4, 3, 3]);
    assert_eq!(allocate(12, &[2, 100, 100]), vec![2, 5, 5]);
    assert_eq!(allocate(12, &[0, 100, 1, 3]), vec![0, 8, 1, 3]);
    assert_eq!(allocate(50, &[3, 4]), vec![3, 4]);
}

#[test]
fn allocation_laws_on_concrete_values() {
    let cap = [5usize, 0, 9, 2];
    let a = allocate(11, &cap);
    assert_eq!(a.iter().sum::<usize>(), 11);
    for (x, c) in a.iter().zip(cap.iter()) {
        assert!(x <= c);
    }
    assert_eq!(a[1], 0);
    let a = allocate(100, &cap);
    assert_eq!(a, vec![5, 0, 9, 2]);
}

#[test]
fn same_seed_same_sample() {
    let pop = population();
    let p = DrawParams {
        size: 60,
        cap: 5,
        seed: 42,
    };
    let shas = |pop: &[Candidate], d: &Draw| -> Vec<String> {
        d.selected.iter().map(|&i| pop[i].sha.clone()).collect()
    };
    let a = shas(&pop, &draw(&pop, &p));
    let mut reversed = pop.clone();
    reversed.reverse();
    let b = shas(&reversed, &draw(&reversed, &p));
    assert_eq!(a, b);
    let c = shas(&pop, &draw(&pop, &DrawParams { seed: 43, ..p }));
    assert_eq!(c.len(), a.len());
    assert_ne!(a, c);
}

#[test]
fn caps_hold_per_stratum() {
    let pop = population();
    let d = draw(
        &pop,
        &DrawParams {
            size: 300,
            cap: 2,
            seed: 7,
        },
    );
    let mut repo: HashMap<(Stratum, &str), usize> = HashMap::new();
    let mut author: HashMap<(Stratum, &str), usize> = HashMap::new();
    for &i in &d.selected {
        let c = &pop[i];
        *repo.entry((c.stratum, c.repo.as_str())).or_default() += 1;
        *author.entry((c.stratum, c.author.as_str())).or_default() += 1;
    }
    assert!(repo.values().all(|&n| n <= 2));
    assert!(author.values().all(|&n| n <= 2));
    assert!(d.sampled.iter().all(|&n| n <= 26));
    assert_eq!(d.population.iter().sum::<usize>(), 600);
}

#[test]
fn draw_selects_each_candidate_once_and_groups_by_stratum() {
    let pop = population();
    let d = draw(&pop, &DrawParams { size: 30, cap: 5, seed: 1 });
    let mut seen = std::collections::HashSet::new();
    for &i in &d.selected {
        assert!(seen.insert(i), "candidate {i} drawn twice");
    }
    assert_eq!(d.selected.len(), d.sampled.iter().sum::<usize>());
    let idx: Vec<usize> = d.selected.iter().map(|&i| pop[i].stratum.index()).collect();
    assert!(idx.windows(2).all(|w| w[0] <= w[1]));
    assert_eq!(d.sampled[Stratum::Exact.index()], 10);
}

#[test]
fn strata_partition_tiers() {
    let c = |x: f64| x.to_bits();
    assert_eq!(Stratum::classify(TraceTier::Exact, "feature", c(0.95)), Stratum::Exact);
    assert_eq!(Stratum::classify(TraceTier::Regex, "bugfix", c(0.9)), Stratum::RegexHigh);
    assert_eq!(Stratum::classify(TraceTier::Regex, "bugfix", c(0.55)), Stratum::RegexMid);
    assert_eq!(Stratum::classify(TraceTier::Regex, "bugfix", c(0.8)), Stratum::RegexOther);
    assert_eq!(Stratum::classify(TraceTier::CatchAll, "maintenance", c(0.3)), Stratum::CatchAll);
    assert_eq!(Stratum::classify(TraceTier::Unclassified, "uncategorized", c(0.0)), Stratum::Unknown);
    assert_eq!(Stratum::classify(TraceTier::Fuzzy, "merge", c(0.6)), Stratum::Fuzzy);
    assert_eq!(Stratum::classify(TraceTier::WeightedSum, "test", c(0.5)), Stratum::WeightedSum);
    assert_eq!(Stratum::classify(TraceTier::Llm, "feature", c(0.8)), Stratum::Other);
}

#[test]
fn confidence_bands_follow_the_float_thresholds() {
    let b = |x: f64| ConfidenceBand::of_bits(x.to_bits());
    assert_eq!(b(0.9), ConfidenceBand::High);
    assert_eq!(b(0.8999999999999999), ConfidenceBand::Other);
    assert_eq!(b(1.0), ConfidenceBand::High);
    assert_eq!(b(f64::INFINITY), ConfidenceBand::High);
    assert_eq!(b(0.7), ConfidenceBand::Mid);
    assert_eq!(b(0.55), ConfidenceBand::Mid);
    assert_eq!(b(0.5499999999999999), ConfidenceBand::Other);
    assert_eq!(b(0.7000000000000001), ConfidenceBand::Other);
    assert_eq!(b(-0.95), ConfidenceBand::Other);
    assert_eq!(b(f64::NAN), ConfidenceBand::Other);
    assert_eq!(b(0.0), ConfidenceBand::Other);
    assert_eq!(b(-0.0), ConfidenceBand::Other);
}

#[test]
fn largest_remainder_hits_the_exact_total() {
    assert_eq!(
        largest_remainder(100, &[212, 85, 37, 66]),
        vec![53, 21, 9, 17]
    );
    assert_eq!(largest_remainder(2, &[1, 1, 1]), vec![1, 1, 0]);
    assert_eq!(largest_remainder(10, &[5, 5, 5, 5]), vec![3, 3, 2, 2]);
    assert_eq!(largest_remainder(7, &[0, 10, 0, 4]), vec![0, 5, 0, 2]);
    assert_eq!(largest_remainder(14, &[0, 10, 0, 4]), vec![0, 10, 0, 4]);
}

#[test]
fn largest_remainder_laws_on_concrete_values() {
    let counts = [3usize, 0, 8, 1];
    let a = largest_remainder(20, &counts);
    assert_eq!(a, vec![3, 0, 8, 1]);
    let a = largest_remainder(6, &counts);
    assert_eq!(a.iter().sum::<usize>(), 6);
    assert!(a.iter().zip(counts.iter()).all(|(x, c)| x <= c));
    assert_eq!(a[1], 0);
}

#[test]
fn splitmix_is_deterministic_and_bounded() {
    let mut a = SplitMix64(5);
    let mut b = SplitMix64(5);
    let xs: Vec<u64> = (0..4).map(|_| a.next()).collect();
    let ys: Vec<u64> = (0..4).map(|_| b.next()).collect();
    assert_eq!(xs, ys);
    let mut r = SplitMix64(9);
    for bound in 1..50u64 {
        assert!(r.below(bound) < bound);
    }
}

#[test]
fn seeded_shuffle_permutes() {
    let mut v: Vec<u32> = (0..20).collect();
    seeded_shuffle(&mut v, 11);
    let mut sorted = v.clone();
    sorted.sort();
    assert_eq!(sorted, (0..20).collect::<Vec<u32>>());
    let mut w: Vec<u32> = (0..20).collect();
    seeded_shuffle(&mut w, 11);
    assert_eq!(v, w);
}

#[test]
fn largest_remainder_counts_the_total_exactly() {
    // The counts sum past the machine word; the split still sums to `size`.
    assert_eq!(largest_remainder(5, &[usize::MAX, 1]), vec![5, 0]);
    assert_eq!(largest_remainder(9, &[3, 1]), vec![3, 1]);
    assert_eq!(largest_remainder(3, &[0, 0]), vec![0, 0]);
}

#[test]
fn plan_keeps_the_window_drops_merges_and_draws() {
    let week = WEEK_SECONDS as i64;
    let commit = |sha: &str, ts: Option<i64>, merge: bool| SampleCommit {
        sha: sha.into(),
        repo: "acme/widgets".into(),
        author_email: format!("  {sha}@X.org "),
        ts,
        is_merge: merge,
    };
    let commits = vec![
        commit("a", Some(10 * week), false),
        commit("b", Some(9 * week), true),
        commit("c", Some(7 * week), false),
        commit("d", None, false),
        commit("e", Some(8 * week), false),
    ];
    let verdict = |tier, cat: &str| ResolvedVerdict {
        tier,
        rule_id: "r".into(),
        category: cat.into(),
        confidence_bits: 0.95f64.to_bits(),
        carried: false,
        superseded: false,
    };
    let verdicts = vec![
        verdict(TraceTier::Exact, "feature"),
        verdict(TraceTier::Exact, "feature"),
        verdict(TraceTier::Exact, "feature"),
        verdict(TraceTier::Exact, "feature"),
        verdict(TraceTier::CatchAll, "maintenance"),
    ];
    let params = DrawParams { size: 10, cap: 5, seed: 7 };
    let p = plan_sample(&commits, &verdicts, 2, &params).expect("plan");
    assert_eq!(p.end, 10 * week);
    assert_eq!(p.start, (8 * week) as i128);
    assert_eq!(p.bad_timestamps, 1);
    assert_eq!(p.window, vec![0, 4]);
    assert_eq!(p.merges_excluded, 1);
    assert_eq!(p.candidates[0].author, "a@x.org");
    assert_eq!(p.candidates[1].stratum, Stratum::CatchAll);
    let mut sel = p.selected.clone();
    sel.sort();
    assert_eq!(sel, vec![0, 4]);
    let again = plan_sample(&commits, &verdicts, 2, &params).expect("plan");
    assert_eq!((again.end, again.start, again.window.clone()), (p.end, p.start, p.window.clone()));
    assert_eq!(again.selected, p.selected);
    assert_eq!(again.draw.sampled, p.draw.sampled);
    assert_eq!(
        plan_sample(&commits, &verdicts, 2, &DrawParams { size: 0, cap: 5, seed: 7 }).unwrap_err(),
        SampleError::ZeroSizeOrCap
    );
    let none = vec![commit("x", None, false)];
    assert_eq!(
        plan_sample(&none, &verdicts[..1], 2, &params).unwrap_err(),
        SampleError::NoCommits
    );
}
