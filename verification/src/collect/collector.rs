//! Counters of one collection run, how each step of the run changes them,
//! and which weeks a repository still needs.

use vstd::prelude::*;

verus! {

/// Summary counters emitted at the end of a collection run.
#[derive(Clone, Debug, Default)]
pub struct CollectionStats {
    /// New commit rows written across all repositories.
    pub commits_collected: usize,
    /// Distinct authors observed and upserted.
    pub authors_resolved: usize,
    /// Pull-request rows written (zero when the GitHub fetch is disabled).
    pub prs_fetched: usize,
    /// Linear issues fetched (zero when Linear is not configured).
    pub linear_issues_fetched: usize,
    /// `(repo, week)` pairs collected this run.
    pub weeks_collected: usize,
    /// `(repo, week)` pairs skipped as already collected.
    pub weeks_skipped: usize,
    /// Per-repo error messages (non-fatal).
    pub errors: Vec<String>,
}

/// What one step of a collection run reports.
#[derive(Clone, Debug)]
pub enum CollectEvent {
    /// A repository could not be opened; the message names it and the
    /// error. The run goes on with the next repository.
    RepoFailed(String),
    /// A week was passed over as already collected.
    WeekSkipped,
    /// A walk wrote `commits` new commits. `week` is set for a week of the
    /// bounded path, which counts as a collected week; `record_error` is
    /// the failure to record that week as collected, if any.
    Collected { commits: usize, week: bool, record_error: Option<String> },
    /// A walk failed with this message.
    Failed(String),
}

/// New commits an event adds.
pub open spec fn event_commits(e: CollectEvent) -> int {
    match e {
        CollectEvent::Collected { commits, .. } => commits as int,
        _ => 0,
    }
}

/// Collected weeks an event adds.
pub open spec fn event_weeks(e: CollectEvent) -> int {
    match e {
        CollectEvent::Collected { week: true, .. } => 1,
        _ => 0,
    }
}

/// Skipped weeks an event adds.
pub open spec fn event_skips(e: CollectEvent) -> int {
    match e {
        CollectEvent::WeekSkipped => 1,
        _ => 0,
    }
}

/// Error messages an event adds.
pub open spec fn event_errors(e: CollectEvent) -> Seq<String> {
    match e {
        CollectEvent::RepoFailed(m) => seq![m],
        CollectEvent::Failed(m) => seq![m],
        CollectEvent::Collected { record_error: Some(m), .. } => seq![m],
        _ => Seq::empty(),
    }
}

/// The counters a run of events adds up to: new commits, collected weeks,
/// skipped weeks, and the error messages in order.
pub open spec fn run_totals(events: Seq<CollectEvent>) -> (int, int, int, Seq<String>)
    decreases events.len(),
{
    if events.len() == 0 {
        (0, 0, 0, Seq::empty())
    } else {
        let t = run_totals(events.drop_last());
        let e = events.last();
        (t.0 + event_commits(e), t.1 + event_weeks(e), t.2 + event_skips(e), t.3 + event_errors(e))
    }
}

proof fn lemma_totals_concat(a: Seq<CollectEvent>, b: Seq<CollectEvent>)
    ensures
        run_totals(a + b) == ({
            let (x, y) = (run_totals(a), run_totals(b));
            (x.0 + y.0, x.1 + y.1, x.2 + y.2, x.3 + y.3)
        }),
    decreases b.len(),
{
    if b.len() == 0 {
        assert(a + b =~= a);
        assert(run_totals(a).3 + Seq::<String>::empty() =~= run_totals(a).3);
    } else {
        lemma_totals_concat(a, b.drop_last());
        assert((a + b).drop_last() =~= a + b.drop_last());
        assert((a + b).last() == b.last());
        let x = run_totals(a);
        let y = run_totals(b.drop_last());
        let e = b.last();
        assert(x.3 + y.3 + event_errors(e) =~= x.3 + (y.3 + event_errors(e)));
    }
}

/// A repository that cannot be opened costs the run nothing but its error:
/// whatever comes before and after it, the run counts the same commits and
/// weeks as without it, and its message joins the errors in its place.
pub proof fn lemma_failed_repository_does_not_stop_the_run(
    before: Seq<CollectEvent>,
    m: String,
    after: Seq<CollectEvent>,
)
    ensures
        ({
            let with = run_totals(before + seq![CollectEvent::RepoFailed(m)] + after);
            let without = run_totals(before + after);
            &&& with.0 == without.0
            &&& with.1 == without.1
            &&& with.2 == without.2
            &&& with.3 == run_totals(before).3 + seq![m] + run_totals(after).3
        }),
{
    let f = seq![CollectEvent::RepoFailed(m)];
    lemma_totals_concat(before, f);
    lemma_totals_concat(before + f, after);
    lemma_totals_concat(before, after);
    assert(f.drop_last() =~= Seq::<CollectEvent>::empty());
    assert(run_totals(f) == (0int, 0int, 0int, seq![m])) by {
        assert(f.len() == 1);
        assert(f.last() == CollectEvent::RepoFailed(m));
        assert(run_totals(f.drop_last()) == (0int, 0int, 0int, Seq::<String>::empty()));
        assert(event_errors(f.last()) == seq![m]);
        assert(Seq::<String>::empty() + seq![m] =~= seq![m]);
    }
}

impl CollectionStats {
    /// Fold one step into the counters. A failure of any kind only adds
    /// its message to `errors`: nothing aborts the run.
    pub fn record(&mut self, event: CollectEvent)
        requires
            event matches CollectEvent::Collected { commits, .. } ==> old(self).commits_collected + commits
                <= usize::MAX,
            event matches CollectEvent::Collected { week: true, .. } ==> old(self).weeks_collected
                < usize::MAX,
            event is WeekSkipped ==> old(self).weeks_skipped < usize::MAX,
        ensures
            final(self).authors_resolved == old(self).authors_resolved,
            final(self).prs_fetched == old(self).prs_fetched,
            final(self).linear_issues_fetched == old(self).linear_issues_fetched,
            final(self).commits_collected == old(self).commits_collected + event_commits(event),
            final(self).weeks_collected == old(self).weeks_collected + event_weeks(event),
            final(self).weeks_skipped == old(self).weeks_skipped + event_skips(event),
            final(self).errors@ == old(self).errors@ + event_errors(event),
    {
        match event {
            CollectEvent::RepoFailed(m) => {
                self.errors.push(m);
            },
            CollectEvent::Failed(m) => {
                self.errors.push(m);
            },
            CollectEvent::WeekSkipped => self.weeks_skipped = self.weeks_skipped + 1,
            CollectEvent::Collected { commits, week, record_error } => {
                self.commits_collected = self.commits_collected + commits;
                if week {
                    self.weeks_collected = self.weeks_collected + 1;
                }
                match record_error {
                    Some(m) => {
                        self.errors.push(m);
                    },
                    None => {},
                }
            },
        }
    }
}

/// Which of `weeks` (ISO year, week) to collect: every one under `force`,
/// otherwise those not yet recorded as collected.
pub fn week_plan(weeks: &[(i32, u32)], collected: &[(i32, u32)], force: bool) -> (plan: Vec<bool>)
    ensures
        plan.len() == weeks.len(),
        forall|i: int| 0 <= i < weeks.len() ==> #[trigger] plan[i] == (force || !collected@.contains(weeks@[i])),
{
    let mut plan: Vec<bool> = Vec::new();
    let mut i: usize = 0;
    while i < weeks.len()
        invariant
            i <= weeks.len(),
            plan.len() == i,
            forall|q: int| 0 <= q < i ==> #[trigger] plan[q] == (force || !collected@.contains(weeks@[q])),
        decreases weeks.len() - i,
    {
        let mut seen = false;
        let mut j: usize = 0;
        while j < collected.len()
            invariant
                i < weeks.len(),
                j <= collected.len(),
                seen <==> exists|q: int| 0 <= q < j && collected@[q] == weeks@[i as int],
            decreases collected.len() - j,
        {
            if collected[j].0 == weeks[i].0 && collected[j].1 == weeks[i].1 {
                seen = true;
            }
            j = j + 1;
        }
        plan.push(force || !seen);
        i = i + 1;
    }
    plan
}

} // verus!
