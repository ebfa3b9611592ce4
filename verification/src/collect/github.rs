//! GitHub REST payloads and the decisions of the GitHub client: the repo
//! slug, pull-request states, paging and the retry policy.

use vstd::prelude::*;
use crate::text::{chars_of, str_eq, string_from_chars, slice_to_vec};

verus! {

/// Page size for paginated list endpoints (GitHub's maximum).
pub const PAGE_SIZE: u32 = 100;

/// Maximum retry attempts for transient failures (5xx, 429).
pub const MAX_RETRIES: u32 = 3;

/// Base delay in milliseconds of the exponential backoff.
pub const RETRY_BASE_MS: u64 = 1000;

/// A GitHub issue as returned by the REST API (the fields the project
/// adapter reads).
#[derive(Clone, Debug)]
pub struct GitHubIssue {
    /// Issue number (the `N` in `#N`).
    pub number: u64,
    /// Issue title.
    pub title: String,
    /// Workflow state, `"open"` or `"closed"`.
    pub state: String,
    /// Web URL of the issue.
    pub html_url: String,
    /// Labels applied to the issue.
    pub labels: Vec<GhLabel>,
    /// Issue body (Markdown), when present.
    pub body: Option<String>,
}

/// A label of an issue.
#[derive(Clone, Debug)]
pub struct GhLabel {
    /// Label name.
    pub name: String,
}

/// A user reference embedded in reviews and other payloads.
#[derive(Clone, Debug)]
pub struct GhUser {
    /// GitHub login.
    pub login: String,
}

/// Git author metadata of a pull-request commit.
#[derive(Clone, Debug)]
pub struct GhAuthor {
    /// Author display name.
    pub name: String,
    /// Author e-mail.
    pub email: String,
    /// Author timestamp (ISO 8601), when given.
    pub date: Option<String>,
}

/// The `commit` object of a pull-request commit.
#[derive(Clone, Debug)]
pub struct GitHubCommitDetail {
    /// Full commit message.
    pub message: String,
    /// Author block, when given.
    pub author: Option<GhAuthor>,
}

/// A commit of a pull request.
#[derive(Clone, Debug)]
pub struct GitHubPrCommit {
    /// Full commit SHA.
    pub sha: String,
    /// Nested commit metadata.
    pub commit: GitHubCommitDetail,
}

/// A pull-request review.
#[derive(Clone, Debug)]
pub struct GitHubReview {
    /// Review id.
    pub id: u64,
    /// Review state (`APPROVED`, `CHANGES_REQUESTED`, ...).
    pub state: String,
    /// Author of the review, absent for deleted accounts.
    pub user: Option<GhUser>,
    /// Submission timestamp; `None` for pending drafts.
    pub submitted_at: Option<String>,
}

/// Message for a missing `github.repo`.
pub open spec fn repo_missing_message() -> Seq<char> {
    "github.repo is required (owner/name)"@
}

/// Message for a `github.repo` without a slash.
pub open spec fn repo_malformed_message(slug: Seq<char>) -> Seq<char> {
    "github.repo must be 'owner/name', got '"@ + slug + "'"@
}

/// Position of the first `/` in `s`.
pub open spec fn first_slash(s: Seq<char>) -> Option<int>
    decreases s.len(),
{
    if s.len() == 0 {
        None
    } else {
        match first_slash(s.drop_last()) {
            Some(k) => Some(k),
            None => if s.last() == '/' {
                Some(s.len() - 1)
            } else {
                None
            },
        }
    }
}

proof fn lemma_first_slash_prefix(s: Seq<char>, n: int)
    requires
        0 <= n <= s.len(),
        first_slash(s.take(n)) is Some,
    ensures
        first_slash(s) == first_slash(s.take(n)),
    decreases s.len() - n,
{
    if n < s.len() {
        assert(s.take(n + 1).drop_last() =~= s.take(n));
        lemma_first_slash_prefix(s, n + 1);
    } else {
        assert(s.take(n) =~= s);
    }
}

/// Owner and repository of a `github.repo` slug: the text before and
/// after its first `/`.
pub fn split_repo_slug(slug: Option<&str>) -> (r: Result<(String, String), String>)
    ensures
        match slug {
            None => r is Err && r->Err_0@ == repo_missing_message(),
            Some(s) => match first_slash(s@) {
                Some(k) => r is Ok && r->Ok_0.0@ == s@.take(k) && r->Ok_0.1@ == s@.skip(k + 1),
                None => r is Err && r->Err_0@ == repo_malformed_message(s@),
            },
        },
{
    match slug {
        None => Err(String::from_str("github.repo is required (owner/name)")),
        Some(s) => {
            let c = chars_of(s);
            let mut i: usize = 0;
            while i < c.len() && c[i] != '/'
                invariant
                    i <= c.len(),
                    c@ == s@,
                    first_slash(s@.take(i as int)) is None,
                decreases c.len() - i,
            {
                proof {
                    assert(s@.take(i as int + 1).drop_last() =~= s@.take(i as int));
                }
                i = i + 1;
            }
            if i == c.len() {
                assert(s@.take(i as int) =~= s@);
                let mut m = chars_of("github.repo must be 'owner/name', got '");
                let mut body = chars_of(s);
                m.append(&mut body);
                let mut q = chars_of("'");
                m.append(&mut q);
                Err(string_from_chars(m.as_slice()))
            } else {
                proof {
                    assert(s@.take(i as int + 1).drop_last() =~= s@.take(i as int));
                    lemma_first_slash_prefix(s@, i as int + 1);
                }
                let owner = slice_to_vec(c.as_slice(), 0, i);
                let repo = slice_to_vec(c.as_slice(), i + 1, c.len());
                proof {
                    assert(s@.skip(i as int + 1) =~= s@.subrange(i as int + 1, s@.len() as int));
                }
                Ok((string_from_chars(owner.as_slice()), string_from_chars(repo.as_slice())))
            }
        },
    }
}

/// State label of a pull request: merged when it has a merge time, closed
/// when GitHub says `closed`, open otherwise.
pub open spec fn pull_state_of(merged: bool, state: Seq<char>) -> Seq<char> {
    if merged {
        "merged"@
    } else if state == "closed"@ {
        "closed"@
    } else {
        "open"@
    }
}

/// State label of a pull request from its merge time's presence and
/// GitHub's `state`.
pub fn pull_state(merged: bool, state: &str) -> (r: &'static str)
    ensures
        r@ == pull_state_of(merged, state@),
{
    if merged {
        "merged"
    } else if str_eq(state, "closed") {
        "closed"
    } else {
        "open"
    }
}

/// Whether a page of `n` items is the last one (a short page ends the
/// listing).
pub fn page_is_last(n: usize) -> (r: bool)
    ensures
        r == (n < PAGE_SIZE),
{
    n < 100
}

/// What one request attempt gave.
#[derive(Clone, Copy, Debug, PartialEq, Eq, Structural)]
pub enum AttemptResult {
    /// A response with this HTTP status.
    Status(u16),
    /// No response: a transport error.
    TransportError,
}

/// What to do after an attempt.
#[derive(Clone, Copy, Debug, PartialEq, Eq, Structural)]
pub enum RetryAction {
    /// Hand the response to the caller.
    Return,
    /// Give up with the transport error.
    Fail,
    /// Wait this many milliseconds, then try again.
    RetryAfter(u64),
}

/// Backoff before the retry that follows attempt `attempt`:
/// `RETRY_BASE_MS * 2^attempt`.
pub open spec fn backoff_ms(attempt: nat) -> nat
    decreases attempt,
{
    if attempt == 0 {
        RETRY_BASE_MS as nat
    } else {
        2 * backoff_ms((attempt - 1) as nat)
    }
}

/// HTTP 429 and every 5xx status are transient.
pub open spec fn transient(status: u16) -> bool {
    status == 429 || (500 <= status && status <= 599)
}

/// The retry policy: a non-transient response is returned; a transient
/// response or a transport error is retried after the backoff, until the
/// last attempt, which returns the response or fails.
pub open spec fn retry_action_of(result: AttemptResult, attempt: u32) -> RetryAction {
    match result {
        AttemptResult::Status(s) => if !transient(s) || attempt == MAX_RETRIES {
            RetryAction::Return
        } else {
            RetryAction::RetryAfter(backoff_ms(attempt as nat) as u64)
        },
        AttemptResult::TransportError => if attempt == MAX_RETRIES {
            RetryAction::Fail
        } else {
            RetryAction::RetryAfter(backoff_ms(attempt as nat) as u64)
        },
    }
}

/// Decide what follows attempt `attempt` (counted from 0) that gave
/// `result`. The last attempt never retries.
pub fn retry_action(result: AttemptResult, attempt: u32) -> (a: RetryAction)
    requires
        attempt <= MAX_RETRIES,
    ensures
        a == retry_action_of(result, attempt),
        attempt == MAX_RETRIES ==> !(a is RetryAfter),
{
    let last = attempt == MAX_RETRIES;
    let retry = match result {
        AttemptResult::Status(s) => !(s == 429 || (500 <= s && s <= 599)) || last,
        AttemptResult::TransportError => last,
    };
    if retry {
        match result {
            AttemptResult::Status(_) => RetryAction::Return,
            AttemptResult::TransportError => RetryAction::Fail,
        }
    } else {
        let mut delay: u64 = RETRY_BASE_MS;
        let mut k: u32 = 0;
        while k < attempt
            invariant
                k <= attempt,
                attempt < MAX_RETRIES,
                delay == backoff_ms(k as nat),
                delay <= 4000,
            decreases attempt - k,
        {
            assert(backoff_ms(k as nat + 1) == 2 * backoff_ms(k as nat));
            delay = delay * 2;
            k = k + 1;
            assert(delay <= 4000) by {
                assert(k <= 2);
                if k == 1 {
                    assert(backoff_ms(1) == 2000) by {
                        reveal_with_fuel(backoff_ms, 2);
                    }
                } else {
                    assert(backoff_ms(2) == 4000) by {
                        reveal_with_fuel(backoff_ms, 3);
                    }
                }
            }
        }
        RetryAction::RetryAfter(delay)
    }
}

/// The retry policy in numbers: any status other than 429 and 5xx is
/// handed back at once; a 429, a 5xx or a transport error is retried after
/// 1 s, 2 s and 4 s on the first three attempts; on the fourth a transient
/// status is handed back and a transport error fails.
pub proof fn lemma_retry_policy(result: AttemptResult, attempt: u32)
    requires
        attempt <= MAX_RETRIES,
    ensures
        result matches AttemptResult::Status(s) && s != 429 && (s < 500 || s > 599) ==> retry_action_of(
            result,
            attempt,
        ) == RetryAction::Return,
        (result matches AttemptResult::Status(s) && (s == 429 || 500 <= s <= 599)) || result
            is TransportError ==> {
            &&& attempt == 0 ==> retry_action_of(result, attempt) == RetryAction::RetryAfter(1000)
            &&& attempt == 1 ==> retry_action_of(result, attempt) == RetryAction::RetryAfter(2000)
            &&& attempt == 2 ==> retry_action_of(result, attempt) == RetryAction::RetryAfter(4000)
        },
        attempt == 3 ==> (result is TransportError <==> retry_action_of(result, attempt) == RetryAction::Fail),
        attempt == 3 ==> (result is Status <==> retry_action_of(result, attempt) == RetryAction::Return),
{
    reveal_with_fuel(backoff_ms, 3);
}

/// A pull request is `merged` exactly when it has a merge time, `closed`
/// exactly when it has none and GitHub says `closed`, and `open` otherwise.
pub proof fn lemma_pull_states(merged: bool, state: Seq<char>)
    ensures
        pull_state_of(merged, state) == "merged"@ <==> merged,
        pull_state_of(merged, state) == "closed"@ <==> !merged && state == "closed"@,
        pull_state_of(merged, state) == "open"@ <==> !merged && state != "closed"@,
{
    reveal_strlit("merged");
    reveal_strlit("closed");
    reveal_strlit("open");
    assert("merged"@.len() == 6 && "closed"@.len() == 6 && "open"@.len() == 4);
    assert("merged"@[0] != "closed"@[0]);
}

/// Where a slug has a `/`, the owner holds none, and owner, `/` and name
/// give the slug back.
pub proof fn lemma_slug_split(s: Seq<char>)
    ensures
        first_slash(s) matches Some(k) ==> ({
            &&& 0 <= k < s.len()
            &&& s[k] == '/'
            &&& forall|j: int| 0 <= j < k ==> #[trigger] s[j] != '/'
            &&& s.take(k) + seq!['/'] + s.skip(k + 1) == s
        }),
        first_slash(s) is None ==> forall|j: int| 0 <= j < s.len() ==> #[trigger] s[j] != '/',
    decreases s.len(),
{
    if s.len() > 0 {
        let d = s.drop_last();
        lemma_slug_split(d);
        match first_slash(d) {
            Some(k) => {
                assert forall|j: int| 0 <= j < k implies #[trigger] s[j] != '/' by {
                    assert(s[j] == d[j]);
                }
                assert(s[k] == d[k]);
            },
            None => {
                assert forall|j: int| 0 <= j < s.len() - 1 implies #[trigger] s[j] != '/' by {
                    assert(s[j] == d[j]);
                }
            },
        }
        if let Some(k) = first_slash(s) {
            assert(s.take(k) + seq!['/'] + s.skip(k + 1) =~= s);
        }
    }
}

} // verus!
