//! Azure DevOps pull-request references.
//!
//! Azure DevOps writes `Merged PR 1234: <title>` as the subject of a
//! completed pull request's merge commit, so the union of such references
//! in the analysed history lists every pull request that touched it without
//! a paginated repository-wide query. The match is case-insensitive to
//! tolerate hand-typed references.

use vstd::prelude::*;
use crate::text::{chars_of, eq_ignore_ascii_case, chars_eq_ignore_ascii_case, string_from_chars};
use vstd::utf8::encode_utf8;

verus! {

/// One person or group asked to approve a pull request.
#[derive(Clone, Debug)]
pub struct AdoPrReviewer {
    /// Stable identifier: `uniqueName` (e.g. `user@contoso.com`).
    pub reviewer_id: String,
    /// Display name as shown in the Azure DevOps UI.
    pub display_name: String,
    /// Vote: 10 approved, 5 approved with suggestions, 0 no vote, -5
    /// waiting for author, -10 rejected.
    pub vote: i32,
    /// Whether this approval was required for the pull request.
    pub is_required: bool,
    /// Whether the entry is a group.
    pub is_container: bool,
}

/// The author recorded for a pull request: its creator's `uniqueName`,
/// else the display name, else empty.
pub fn pr_author(unique_name: Option<String>, display_name: Option<String>) -> (a: String)
    ensures
        a@ == match unique_name {
            Some(u) => u@,
            None => match display_name {
                Some(d) => d@,
                None => Seq::<char>::empty(),
            },
        },
{
    match unique_name {
        Some(u) => u,
        None => match display_name {
            Some(d) => d,
            None => String::new(),
        },
    }
}

impl AdoPrReviewer {
    /// Builds the approval entry of one person, where a missing display name is empty and a
    /// missing `uniqueName` falls back to the display name.
    pub fn from_fields(
        unique_name: Option<String>,
        display_name: Option<String>,
        vote: i32,
        is_required: bool,
        is_container: bool,
    ) -> (r: Self)
        ensures
            r.display_name@ == match display_name {
                Some(d) => d@,
                None => Seq::<char>::empty(),
            },
            r.reviewer_id@ == match unique_name {
                Some(u) => u@,
                None => r.display_name@,
            },
            r.vote == vote,
            r.is_required == is_required,
            r.is_container == is_container,
    {
        let display = match display_name {
            Some(d) => d,
            None => String::new(),
        };
        let id = match unique_name {
            Some(u) => u,
            None => String::from_str(display.as_str()),
        };
        AdoPrReviewer { reviewer_id: id, display_name: display, vote, is_required, is_container }
    }
}

/// A byte that a path segment may hold unencoded (RFC 3986 unreserved).
pub open spec fn unreserved(b: u8) -> bool {
    (48 <= b <= 57) || (65 <= b <= 90) || (97 <= b <= 122) || b == 45 || b == 46 || b == 95 || b == 126
}

/// Upper-case hexadecimal digit of `d < 16`.
pub open spec fn hex_digit(d: u8) -> char {
    if d < 10 {
        ((48 + d) as u8) as char
    } else {
        ((55 + d) as u8) as char
    }
}

/// Percent-encoding of one byte.
pub open spec fn encode_byte(b: u8) -> Seq<char> {
    if unreserved(b) {
        seq![b as char]
    } else {
        seq!['%', hex_digit(b / 16), hex_digit(b % 16)]
    }
}

/// Percent-encoding of a byte string.
pub open spec fn encode_bytes(bs: Seq<u8>) -> Seq<char>
    decreases bs.len(),
{
    if bs.len() == 0 {
        Seq::empty()
    } else {
        encode_bytes(bs.drop_last()) + encode_byte(bs.last())
    }
}

fn hex(d: u8) -> (c: char)
    requires
        d < 16,
    ensures
        c == hex_digit(d),
{
    if d < 10 {
        (48 + d) as char
    } else {
        (55 + d) as char
    }
}

/// Percent-encode a single path segment (a project name): unreserved
/// bytes stay, every other byte of the UTF-8 encoding becomes `%XX`.
pub fn encode_segment(s: &str) -> (r: String)
    ensures
        r@ == encode_bytes(encode_utf8(s@)),
{
    let bytes = s.as_bytes();
    let mut out: Vec<char> = Vec::new();
    let mut i: usize = 0;
    while i < bytes.len()
        invariant
            i <= bytes@.len(),
            out@ == encode_bytes(bytes@.take(i as int)),
        decreases bytes.len() - i,
    {
        let b = bytes[i];
        proof {
            assert(bytes@.take(i as int + 1).drop_last() == bytes@.take(i as int));
        }
        if (48 <= b && b <= 57) || (65 <= b && b <= 90) || (97 <= b && b <= 122) || b == 45 || b == 46
            || b == 95 || b == 126 {
            out.push(b as char);
        } else {
            out.push('%');
            out.push(hex(b / 16));
            out.push(hex(b % 16));
        }
        i = i + 1;
    }
    assert(bytes@.take(bytes@.len() as int) == bytes@);
    string_from_chars(out.as_slice())
}

/// Pull-request state stored for an Azure DevOps status: `completed` is
/// merged, `abandoned` closed, anything else open (ASCII case ignored).
pub open spec fn pr_state_of(status: Seq<char>) -> Seq<char> {
    if eq_ignore_ascii_case(status, "completed"@) {
        "merged"@
    } else if eq_ignore_ascii_case(status, "abandoned"@) {
        "closed"@
    } else {
        "open"@
    }
}

/// The state stored for a pull request with this Azure DevOps status.
pub fn pr_state(status: &str) -> (r: &'static str)
    ensures
        r@ == pr_state_of(status@),
{
    let st = chars_of(status);
    let completed = chars_of("completed");
    let abandoned = chars_of("abandoned");
    if chars_eq_ignore_ascii_case(st.as_slice(), completed.as_slice()) {
        "merged"
    } else if chars_eq_ignore_ascii_case(st.as_slice(), abandoned.as_slice()) {
        "closed"
    } else {
        "open"
    }
}

/// The merge commit SHA kept for a pull request: only a completed one
/// (ASCII case ignored) has landed, and an empty id counts as missing.
pub fn completed_merge_sha(status: &str, last_merge_commit_id: Option<String>) -> (r: Option<String>)
    ensures
        r == if eq_ignore_ascii_case(status@, "completed"@) && (last_merge_commit_id matches Some(id)
            && id@.len() > 0) {
            last_merge_commit_id
        } else {
            None::<String>
        },
{
    let st = chars_of(status);
    let completed = chars_of("completed");
    if chars_eq_ignore_ascii_case(st.as_slice(), completed.as_slice()) {
        match last_merge_commit_id {
            Some(id) => {
                if id.as_str().is_empty() {
                    None
                } else {
                    Some(id)
                }
            },
            None => None,
        }
    } else {
        None
    }
}

/// The marker that opens a reference, in lower case.
pub open spec fn marker() -> Seq<char> {
    seq!['m', 'e', 'r', 'g', 'e', 'd', ' ', 'p', 'r', ' ']
}

/// The marker in upper case.
pub open spec fn marker_upper() -> Seq<char> {
    seq!['M', 'E', 'R', 'G', 'E', 'D', ' ', 'P', 'R', ' ']
}

/// `m` holds the marker at position `p`, ignoring ASCII case.
pub open spec fn marker_at(m: Seq<char>, p: int) -> bool {
    0 <= p && p + 10 <= m.len() && forall|k: int|
        0 <= k < 10 ==> (#[trigger] m[p + k] == marker()[k] || m[p + k] == marker_upper()[k])
}

/// An ASCII decimal digit.
pub open spec fn is_digit(c: char) -> bool {
    '0' <= c && c <= '9'
}

/// First position at or after `i` that does not hold a digit.
pub open spec fn digits_end(m: Seq<char>, i: int) -> int
    decreases m.len() - i,
{
    if i < 0 || i >= m.len() || !is_digit(m[i]) {
        i
    } else {
        digits_end(m, i + 1)
    }
}

/// Decimal value of a run of digits.
pub open spec fn digits_value(s: Seq<char>) -> int
    decreases s.len(),
{
    if s.len() == 0 {
        0
    } else {
        digits_value(s.drop_last()) * 10 + (s.last() as u32 - '0' as u32)
    }
}

/// The pull-request id referenced at position `p` of `m`, if any: the
/// marker, at least one digit, then `:`, with a value that fits an `i64`.
pub open spec fn pr_ref_at(m: Seq<char>, p: int) -> Option<int> {
    let start = p + 10;
    let end = digits_end(m, start);
    if marker_at(m, p) && end > start && end < m.len() && m[end] == ':' && digits_value(
        m.subrange(start, end),
    ) <= i64::MAX {
        Some(digits_value(m.subrange(start, end)))
    } else {
        None
    }
}

/// `id` is referenced somewhere in `messages`.
pub open spec fn referenced(messages: Seq<&str>, id: int) -> bool {
    exists|k: int, p: int| 0 <= k < messages.len() && #[trigger] pr_ref_at(messages[k]@, p) == Some(id)
}

/// `v` is strictly increasing.
pub open spec fn strictly_increasing(v: Seq<i64>) -> bool {
    forall|a: int, b: int| 0 <= a < b < v.len() ==> v[a] < v[b]
}

/// Inserts `x` into a strictly increasing vector unless it is present.
fn insert_unique(v: &mut Vec<i64>, x: i64)
    requires
        strictly_increasing(old(v)@),
    ensures
        strictly_increasing(final(v)@),
        forall|y: i64| final(v)@.contains(y) <==> (old(v)@.contains(y) || y == x),
{
    let mut i: usize = 0;
    while i < v.len() && v[i] < x
        invariant
            v@ == old(v)@,
            i <= v.len(),
            strictly_increasing(v@),
            forall|a: int| 0 <= a < i ==> v@[a] < x,
        decreases v.len() - i,
    {
        i = i + 1;
    }
    if i < v.len() && v[i] == x {
        assert(v@[i as int] == x);
        return;
    }
    let ghost before = v@;
    assert(before == old(v)@);
    v.insert(i, x);
    proof {
        assert forall|a: int, b: int| 0 <= a < b < v@.len() implies v@[a] < v@[b] by {
            if b < i {
                assert(v@[a] == before[a] && v@[b] == before[b]);
            } else if b == i {
                assert(v@[a] == before[a]);
            } else if a < i {
                assert(v@[a] == before[a] && v@[b] == before[b - 1]);
                assert(before[i as int] >= x);
            } else if a == i {
                assert(v@[b] == before[b - 1]);
                assert(before[i as int] > x);
                assert(before[i as int] <= before[b - 1]);
            } else {
                assert(v@[a] == before[a - 1] && v@[b] == before[b - 1]);
            }
        }
        assert forall|y: i64| #[trigger] v@.contains(y) <==> (before.contains(y) || y == x) by {
            if v@.contains(y) {
                let q = choose|q: int| 0 <= q < v@.len() && v@[q] == y;
                if q < i {
                    assert(before[q] == y);
                } else if q > i {
                    assert(before[q - 1] == y);
                }
            }
            if before.contains(y) {
                let q = choose|q: int| 0 <= q < before.len() && before[q] == y;
                if q < i {
                    assert(v@[q] == y);
                } else {
                    assert(v@[q + 1] == y);
                }
            }
            if y == x {
                assert(v@[i as int] == x);
            }
        }
    }
}

/// Whether the marker starts at `p` of `m`.
fn has_marker(m: &Vec<char>, p: usize) -> (r: bool)
    ensures
        r == marker_at(m@, p as int),
{
    if p > m.len() || m.len() - p < 10 {
        return false;
    }
    let lowers: [char; 10] = ['m', 'e', 'r', 'g', 'e', 'd', ' ', 'p', 'r', ' '];
    let uppers: [char; 10] = ['M', 'E', 'R', 'G', 'E', 'D', ' ', 'P', 'R', ' '];
    assert(lowers@ == marker());
    assert(uppers@ == marker_upper());
    let mut k: usize = 0;
    while k < 10
        invariant
            p + 10 <= m.len(),
            k <= 10,
            lowers@ == marker(),
            uppers@ == marker_upper(),
            forall|q: int| 0 <= q < k ==> (#[trigger] m@[p + q] == marker()[q] || m@[p + q]
                == marker_upper()[q]),
        decreases 10 - k,
    {
        let c = m[p + k];
        if c != lowers[k] && c != uppers[k] {
            return false;
        }
        k = k + 1;
    }
    true
}

proof fn lemma_digits_end_bounds(m: Seq<char>, i: int)
    requires
        0 <= i <= m.len(),
    ensures
        i <= digits_end(m, i) <= m.len(),
        forall|q: int| i <= q < digits_end(m, i) ==> is_digit(#[trigger] m[q]),
        digits_end(m, i) < m.len() ==> !is_digit(m[digits_end(m, i)]),
    decreases m.len() - i,
{
    if i < m.len() && is_digit(m[i]) {
        lemma_digits_end_bounds(m, i + 1);
    }
}

proof fn lemma_digits_end_step(m: Seq<char>, i: int, j: int)
    requires
        0 <= i <= j <= m.len(),
        forall|q: int| i <= q < j ==> is_digit(#[trigger] m[q]),
    ensures
        digits_end(m, i) == digits_end(m, j),
    decreases j - i,
{
    if i < j {
        lemma_digits_end_step(m, i + 1, j);
    }
}

/// The reference at position `p` of `m`, if any.
fn pr_ref(m: &Vec<char>, p: usize) -> (r: Option<i64>)
    ensures
        r matches Some(v) ==> pr_ref_at(m@, p as int) == Some(v as int),
        r is None ==> pr_ref_at(m@, p as int) is None,
{
    if p > m.len() || m.len() - p < 10 {
        return None;
    }
    if !has_marker(m, p) {
        return None;
    }
    let start = p + 10;
    let mut end = start;
    let mut value: i64 = 0;
    let mut fits = true;
    while end < m.len() && '0' <= m[end] && m[end] <= '9'
        invariant
            start <= end <= m.len(),
            start == p + 10,
            forall|q: int| start <= q < end ==> is_digit(#[trigger] m@[q]),
            fits ==> value as int == digits_value(m@.subrange(start as int, end as int)),
            fits ==> 0 <= value,
            !fits ==> digits_value(m@.subrange(start as int, end as int)) > i64::MAX,
            digits_value(m@.subrange(start as int, end as int)) >= 0,
        decreases m.len() - end,
    {
        let d = (m[end] as u32 - '0' as u32) as i64;
        let ghost old_sub = m@.subrange(start as int, end as int);
        proof {
            assert(m@.subrange(start as int, end as int + 1).drop_last() == old_sub);
            assert(m@.subrange(start as int, end as int + 1).last() == m@[end as int]);
        }
        if fits {
            if value > (i64::MAX - d) / 10 {
                fits = false;
                proof {
                    assert(value * 10 + d > i64::MAX) by (nonlinear_arith)
                        requires
                            value > (i64::MAX - d) / 10,
                            0 <= d <= 9,
                    ;
                }
            } else {
                proof {
                    assert(value * 10 + d <= i64::MAX) by (nonlinear_arith)
                        requires
                            value <= (i64::MAX - d) / 10,
                            0 <= d <= 9,
                            0 <= value,
                    ;
                }
                value = value * 10 + d;
            }
        } else {
            proof {
                assert(digits_value(old_sub) * 10 + d > i64::MAX) by (nonlinear_arith)
                    requires
                        digits_value(old_sub) > i64::MAX,
                        0 <= d,
                ;
            }
        }
        end = end + 1;
    }
    proof {
        lemma_digits_end_step(m@, start as int, end as int);
        lemma_digits_end_bounds(m@, end as int);
    }
    if end > start && end < m.len() && m[end] == ':' && fits {
        Some(value)
    } else {
        None
    }
}

/// `id` is referenced at some position before `p` of `m`.
pub open spec fn found_before(m: Seq<char>, p: int, id: int) -> bool {
    exists|q: int| 0 <= q < p && #[trigger] pr_ref_at(m, q) == Some(id)
}

/// `id` is referenced in one of the first `k` messages.
pub open spec fn referenced_in_first(messages: Seq<&str>, k: int, id: int) -> bool {
    exists|j: int, q: int| 0 <= j < k && #[trigger] pr_ref_at(messages[j]@, q) == Some(id)
}

/// Extract the unique Azure DevOps pull-request ids referenced by a list
/// of commit messages, sorted ascending; messages without a reference are
/// ignored, and so is a reference whose number does not fit an `i64`.
pub fn extract_pr_ids(messages: &[&str]) -> (ids: Vec<i64>)
    ensures
        strictly_increasing(ids@),
        forall|id: i64| #[trigger] ids@.contains(id) <==> referenced(messages@, id as int),
{
    let mut ids: Vec<i64> = Vec::new();
    let mut k: usize = 0;
    while k < messages.len()
        invariant
            k <= messages.len(),
            strictly_increasing(ids@),
            forall|id: i64| #[trigger] ids@.contains(id) <==> referenced_in_first(messages@, k as int, id as int),
        decreases messages.len() - k,
    {
        let m = chars_of(messages[k]);
        let ghost before = ids@;
        let mut p: usize = 0;
        while p < m.len()
            invariant
                k < messages.len(),
                m@ == messages@[k as int]@,
                p <= m.len(),
                strictly_increasing(ids@),
                forall|id: i64|
                    #[trigger] ids@.contains(id) <==> (before.contains(id) || found_before(m@, p as int, id as int)),
            decreases m.len() - p,
        {
            let ghost mid = ids@;
            let r = pr_ref(&m, p);
            if let Some(v) = r {
                insert_unique(&mut ids, v);
            }
            proof {
                assert forall|id: i64|
                    #[trigger] ids@.contains(id) <==> (before.contains(id) || found_before(m@, p + 1, id as int)) by {
                    if found_before(m@, p + 1, id as int) {
                        let q = choose|q: int| 0 <= q < p + 1 && #[trigger] pr_ref_at(m@, q) == Some(id as int);
                        if q < p {
                            assert(found_before(m@, p as int, id as int));
                            assert(mid.contains(id));
                        }
                    }
                    if mid.contains(id) && !before.contains(id) {
                        assert(found_before(m@, p as int, id as int));
                        let q = choose|q: int| 0 <= q < p && #[trigger] pr_ref_at(m@, q) == Some(id as int);
                        assert(pr_ref_at(m@, q) == Some(id as int));
                    }
                    if ids@.contains(id) && !mid.contains(id) {
                        assert(r == Some(id));
                        assert(pr_ref_at(m@, p as int) == Some(id as int));
                    }
                }
            }
            p = p + 1;
        }
        proof {
            assert forall|id: i64|
                #[trigger] ids@.contains(id) <==> referenced_in_first(messages@, k + 1, id as int) by {
                if ids@.contains(id) {
                    if before.contains(id) {
                        assert(referenced_in_first(messages@, k as int, id as int));
                        let (j, q) = choose|j: int, q: int|
                            0 <= j < k && #[trigger] pr_ref_at(messages@[j]@, q) == Some(id as int);
                        assert(pr_ref_at(messages@[j]@, q) == Some(id as int));
                    } else {
                        assert(found_before(m@, m@.len() as int, id as int));
                        let q = choose|q: int| 0 <= q < m@.len() && #[trigger] pr_ref_at(m@, q) == Some(
                            id as int,
                        );
                        assert(pr_ref_at(messages@[k as int]@, q) == Some(id as int));
                    }
                }
                if referenced_in_first(messages@, k + 1, id as int) {
                    let (j, q) = choose|j: int, q: int|
                        0 <= j < k + 1 && #[trigger] pr_ref_at(messages@[j]@, q) == Some(id as int);
                    if j == k {
                        assert(pr_ref_at(m@, q) == Some(id as int));
                        lemma_ref_position(m@, q);
                        assert(found_before(m@, m@.len() as int, id as int));
                    } else {
                        assert(referenced_in_first(messages@, k as int, id as int));
                        assert(before.contains(id));
                    }
                }
            }
        }
        k = k + 1;
    }
    proof {
        assert forall|id: i64| #[trigger] ids@.contains(id) <==> referenced(messages@, id as int) by {
            if referenced(messages@, id as int) {
                let (j, q) = choose|j: int, q: int|
                    0 <= j < messages@.len() && #[trigger] pr_ref_at(messages@[j]@, q) == Some(id as int);
                assert(referenced_in_first(messages@, messages@.len() as int, id as int));
            }
            if ids@.contains(id) {
                let (j, q) = choose|j: int, q: int|
                    0 <= j < messages@.len() && #[trigger] pr_ref_at(messages@[j]@, q) == Some(id as int);
                assert(pr_ref_at(messages@[j]@, q) == Some(id as int));
            }
        }
    }
    ids
}

proof fn lemma_ref_position(m: Seq<char>, q: int)
    ensures
        pr_ref_at(m, q) is Some ==> 0 <= q < m.len(),
{
}

/// An Azure DevOps status maps to `merged` exactly when it is `completed`,
/// to `closed` exactly when it is `abandoned`, and to `open` otherwise, in
/// any ASCII case; two statuses equal ignoring case map alike.
pub proof fn lemma_pr_states(status: Seq<char>, other: Seq<char>)
    ensures
        pr_state_of(status) == "merged"@ <==> eq_ignore_ascii_case(status, "completed"@),
        pr_state_of(status) == "closed"@ <==> eq_ignore_ascii_case(status, "abandoned"@),
        pr_state_of(status) == "open"@ <==> !eq_ignore_ascii_case(status, "completed"@) && !eq_ignore_ascii_case(
            status,
            "abandoned"@,
        ),
        eq_ignore_ascii_case(status, other) ==> pr_state_of(status) == pr_state_of(other),
{
    reveal_strlit("merged");
    reveal_strlit("closed");
    reveal_strlit("open");
    assert("merged"@.len() == 6 && "closed"@.len() == 6 && "open"@.len() == 4);
    assert("merged"@[0] != "closed"@[0]);
    reveal_strlit("completed");
    reveal_strlit("abandoned");
    if eq_ignore_ascii_case(status, "abandoned"@) {
        assert(crate::text::ascii_lower(status[0]) == crate::text::ascii_lower("abandoned"@[0]));
        assert(crate::text::ascii_lower("abandoned"@[0]) != crate::text::ascii_lower("completed"@[0]));
    }
    if eq_ignore_ascii_case(status, other) {
        crate::text::lemma_same_case_class(status, other, "completed"@);
        crate::text::lemma_same_case_class(status, other, "abandoned"@);
    }
}

} // verus!
