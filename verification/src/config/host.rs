//! The host named by a URL.
//!
//! The host is the URL's authority (after the first `://`, when there is
//! one, up to the first `/`, `?` or `#`), without any `user@` part and
//! without a `:port`.

use vstd::prelude::*;
use crate::text::{chars_eq_ignore_ascii_case, chars_of, eq_ignore_ascii_case, slice_to_vec};

verus! {

/// `://` starts at `i`.
pub open spec fn scheme_sep_at(u: Seq<char>, i: int) -> bool {
    0 <= i && i + 3 <= u.len() && u[i] == ':' && u[i + 1] == '/' && u[i + 2] == '/'
}

/// Position of the first `://` at or after `i`, or `-1`.
pub open spec fn first_scheme_sep(u: Seq<char>, i: int) -> int
    decreases u.len() - i,
{
    if i < 0 || i + 3 > u.len() {
        -1
    } else if scheme_sep_at(u, i) {
        i
    } else {
        first_scheme_sep(u, i + 1)
    }
}

/// Where the authority starts: after the first `://`, else at the start.
pub open spec fn authority_start(u: Seq<char>) -> int {
    let k = first_scheme_sep(u, 0);
    if k < 0 {
        0
    } else {
        k + 3
    }
}

/// A character that ends the authority.
pub open spec fn ends_authority(c: char) -> bool {
    c == '/' || c == '?' || c == '#'
}

/// First position at or after `i` that ends the authority, or the end.
pub open spec fn authority_end(u: Seq<char>, i: int) -> int
    decreases u.len() - i,
{
    if i < 0 || i >= u.len() {
        u.len() as int
    } else if ends_authority(u[i]) {
        i
    } else {
        authority_end(u, i + 1)
    }
}

/// The authority part of the URL.
pub open spec fn authority(u: Seq<char>) -> Seq<char> {
    u.subrange(authority_start(u), authority_end(u, authority_start(u)))
}

/// Position of the last `c` in `a`, or `-1`.
pub open spec fn last_index(a: Seq<char>, c: char) -> int
    decreases a.len(),
{
    if a.len() == 0 {
        -1
    } else if a.last() == c {
        a.len() - 1
    } else {
        last_index(a.drop_last(), c)
    }
}

/// Position of the first `c` in `a`, or `a.len()`.
pub open spec fn first_or_end(a: Seq<char>, c: char, i: int) -> int
    decreases a.len() - i,
{
    if i < 0 || i >= a.len() {
        a.len() as int
    } else if a[i] == c {
        i
    } else {
        first_or_end(a, c, i + 1)
    }
}

/// The host a URL names.
pub open spec fn url_host(u: Seq<char>) -> Seq<char> {
    let a = authority(u);
    let s = a.skip(last_index(a, '@') + 1);
    s.take(first_or_end(s, ':', 0))
}

proof fn lemma_first_scheme_sep_bounds(u: Seq<char>, i: int)
    requires
        0 <= i,
    ensures
        first_scheme_sep(u, i) == -1 || (i <= first_scheme_sep(u, i) && first_scheme_sep(u, i) + 3
            <= u.len()),
    decreases u.len() - i,
{
    if i + 3 <= u.len() && !scheme_sep_at(u, i) {
        lemma_first_scheme_sep_bounds(u, i + 1);
    }
}

proof fn lemma_authority_end_bounds(u: Seq<char>, i: int)
    requires
        0 <= i <= u.len(),
    ensures
        i <= authority_end(u, i) <= u.len(),
    decreases u.len() - i,
{
    if i < u.len() && !ends_authority(u[i]) {
        lemma_authority_end_bounds(u, i + 1);
    }
}

proof fn lemma_last_index_bounds(a: Seq<char>, c: char)
    ensures
        -1 <= last_index(a, c) < a.len(),
    decreases a.len(),
{
    if a.len() > 0 && a.last() != c {
        lemma_last_index_bounds(a.drop_last(), c);
    }
}

proof fn lemma_first_or_end_bounds(a: Seq<char>, c: char, i: int)
    requires
        0 <= i <= a.len(),
    ensures
        i <= first_or_end(a, c, i) <= a.len(),
    decreases a.len() - i,
{
    if i < a.len() && a[i] != c {
        lemma_first_or_end_bounds(a, c, i + 1);
    }
}

/// The host of `url`.
pub fn host_of(url: &str) -> (h: Vec<char>)
    ensures
        h@ == url_host(url@),
{
    let u = chars_of(url);
    let ghost s = u@;
    // the scheme separator
    let mut i: usize = 0;
    let mut found = false;
    while !found && u.len() - i >= 3
        invariant
            s == u@,
            s == url@,
            i <= u.len(),
            found ==> scheme_sep_at(s, i as int) && first_scheme_sep(s, 0) == i,
            !found ==> first_scheme_sep(s, 0) == first_scheme_sep(s, i as int),
        decreases u.len() - i + if found { 0int } else { 1int },
    {
        if u[i] == ':' && u[i + 1] == '/' && u[i + 2] == '/' {
            found = true;
        } else {
            i = i + 1;
        }
    }
    let start: usize = if found { i + 3 } else { 0 };
    proof {
        lemma_first_scheme_sep_bounds(s, 0);
    }
    assert(start as int == authority_start(s));
    // the end of the authority
    let mut e: usize = start;
    while e < u.len() && !(u[e] == '/' || u[e] == '?' || u[e] == '#')
        invariant
            s == u@,
            start <= e <= u.len(),
            authority_end(s, start as int) == authority_end(s, e as int),
        decreases u.len() - e,
    {
        e = e + 1;
    }
    let a = slice_to_vec(u.as_slice(), start, e);
    assert(a@ == authority(s));
    // after the last `@`
    let mut j: usize = a.len();
    let mut hit = false;
    assert(a@.take(j as int) =~= a@);
    while !hit && j > 0
        invariant
            j <= a.len(),
            hit ==> j > 0 && a@[j - 1] == '@' && last_index(a@, '@') == j - 1,
            !hit ==> last_index(a@, '@') == last_index(a@.take(j as int), '@'),
        decreases j + if hit { 0int } else { 1int },
    {
        assert(a@.take(j as int).drop_last() =~= a@.take(j as int - 1));
        if a[j - 1] == '@' {
            hit = true;
        } else {
            j = j - 1;
        }
    }
    let from: usize = if hit { j } else { 0 };
    proof {
        lemma_last_index_bounds(a@, '@');
    }
    assert(from as int == last_index(a@, '@') + 1);
    let rest = slice_to_vec(a.as_slice(), from, a.len());
    assert(rest@ =~= a@.skip(from as int));
    // up to the first `:`
    let mut k: usize = 0;
    while k < rest.len() && rest[k] != ':'
        invariant
            k <= rest.len(),
            first_or_end(rest@, ':', 0) == first_or_end(rest@, ':', k as int),
        decreases rest.len() - k,
    {
        k = k + 1;
    }
    let h = slice_to_vec(rest.as_slice(), 0, k);
    assert(h@ =~= rest@.take(k as int));
    h
}

/// The host is an Azure DevOps cloud host: `dev.azure.com`, or a name
/// under `.visualstudio.com`, ASCII case ignored.
pub open spec fn azure_cloud_host(h: Seq<char>) -> bool {
    eq_ignore_ascii_case(h, "dev.azure.com"@) || (h.len() > 17 && eq_ignore_ascii_case(
        h.subrange(h.len() - 17, h.len() as int),
        ".visualstudio.com"@,
    ))
}

/// Whether `h` is an Azure DevOps cloud host.
pub fn is_azure_cloud_host(h: &[char]) -> (r: bool)
    ensures
        r == azure_cloud_host(h@),
{
    let dev = chars_of("dev.azure.com");
    let vs = chars_of(".visualstudio.com");
    proof {
        reveal_strlit(".visualstudio.com");
    }
    if chars_eq_ignore_ascii_case(h, dev.as_slice()) {
        return true;
    }
    if h.len() > 17 {
        let tail = slice_to_vec(h, h.len() - 17, h.len());
        return chars_eq_ignore_ascii_case(tail.as_slice(), vs.as_slice());
    }
    false
}

/// The cloud-host test ignores ASCII case: two hosts equal ignoring case
/// are both cloud hosts or neither; `dev.azure.com` is one, and so is every
/// host of at least one character followed by `.visualstudio.com`.
pub proof fn lemma_cloud_hosts(h: Seq<char>, other: Seq<char>, org: Seq<char>)
    ensures
        eq_ignore_ascii_case(h, other) ==> azure_cloud_host(h) == azure_cloud_host(other),
        azure_cloud_host("dev.azure.com"@),
        org.len() > 0 ==> azure_cloud_host(org + ".visualstudio.com"@),
{
    reveal_strlit("dev.azure.com");
    reveal_strlit(".visualstudio.com");
    if eq_ignore_ascii_case(h, other) {
        crate::text::lemma_same_case_class(h, other, "dev.azure.com"@);
    }
    if eq_ignore_ascii_case(h, other) && h.len() > 17 {
        let a = h.subrange(h.len() - 17, h.len() as int);
        let b = other.subrange(other.len() - 17, other.len() as int);
        assert(eq_ignore_ascii_case(a, b)) by {
            assert forall|k: int| 0 <= k < a.len() implies #[trigger] crate::text::ascii_lower(a[k])
                == crate::text::ascii_lower(b[k]) by {
                assert(a[k] == h[h.len() - 17 + k]);
                assert(b[k] == other[other.len() - 17 + k]);
            }
        }
        crate::text::lemma_same_case_class(a, b, ".visualstudio.com"@);
    }
    let dev = "dev.azure.com"@;
    assert(eq_ignore_ascii_case(dev, dev));
    if org.len() > 0 {
        let x = org + ".visualstudio.com"@;
        let t = x.subrange(x.len() - 17, x.len() as int);
        assert(t =~= ".visualstudio.com"@);
        assert(eq_ignore_ascii_case(t, ".visualstudio.com"@));
    }
}

proof fn lemma_authority_end_clear(u: Seq<char>, i: int)
    requires
        0 <= i <= u.len(),
    ensures
        forall|k: int| i <= k < authority_end(u, i) ==> !ends_authority(#[trigger] u[k]),
    decreases u.len() - i,
{
    if i < u.len() && !ends_authority(u[i]) {
        lemma_authority_end_clear(u, i + 1);
    }
}

proof fn lemma_after_last_index(a: Seq<char>, c: char)
    ensures
        forall|k: int| last_index(a, c) < k < a.len() ==> #[trigger] a[k] != c,
    decreases a.len(),
{
    lemma_last_index_bounds(a, c);
    if a.len() > 0 && a.last() != c {
        lemma_after_last_index(a.drop_last(), c);
        lemma_last_index_bounds(a.drop_last(), c);
        assert forall|k: int| last_index(a, c) < k < a.len() implies #[trigger] a[k] != c by {
            if k < a.len() - 1 {
                assert(a[k] == a.drop_last()[k]);
            }
        }
    }
}

proof fn lemma_before_first_or_end(a: Seq<char>, c: char, i: int)
    requires
        0 <= i <= a.len(),
    ensures
        forall|k: int| i <= k < first_or_end(a, c, i) ==> #[trigger] a[k] != c,
    decreases a.len() - i,
{
    if i < a.len() && a[i] != c {
        lemma_before_first_or_end(a, c, i + 1);
    }
}

/// The host a URL names is bare: it holds no `:` (so no port), no `@` (so
/// no user information), and none of `/`, `?`, `#` (so nothing of the
/// path, query or fragment).
pub proof fn lemma_host_is_bare(u: Seq<char>)
    ensures
        forall|k: int|
            0 <= k < url_host(u).len() ==> {
                let c = #[trigger] url_host(u)[k];
                c != ':' && c != '@' && c != '/' && c != '?' && c != '#'
            },
{
    let st = authority_start(u);
    lemma_first_scheme_sep_bounds(u, 0);
    assert(0 <= st <= u.len());
    lemma_authority_end_bounds(u, st);
    lemma_authority_end_clear(u, st);
    let a = authority(u);
    let en = authority_end(u, st);
    assert forall|k: int| 0 <= k < a.len() implies !ends_authority(#[trigger] a[k]) by {
        assert(a[k] == u[st + k]);
    }
    lemma_last_index_bounds(a, '@');
    lemma_after_last_index(a, '@');
    let li = last_index(a, '@');
    let s = a.skip(li + 1);
    lemma_first_or_end_bounds(s, ':', 0);
    lemma_before_first_or_end(s, ':', 0);
    let h = url_host(u);
    assert(h == s.take(first_or_end(s, ':', 0)));
    assert forall|k: int| 0 <= k < h.len() implies {
        let c = #[trigger] h[k];
        c != ':' && c != '@' && c != '/' && c != '?' && c != '#'
    } by {
        assert(h[k] == s[k]);
        assert(s[k] == a[li + 1 + k]);
        assert(!ends_authority(a[li + 1 + k]));
    }
}

} // verus!
