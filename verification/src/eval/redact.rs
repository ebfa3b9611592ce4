//! Identity redaction for the rater sheet.
//!
//! The sheet hides the author behind a salted hash, but commit bodies carry
//! git trailers (`Co-authored-by: Name <email>`) that name people verbatim.
//! Raters need the change, not the people: [`strip_trailers`] drops identity
//! trailer lines and [`redact_emails`] replaces any remaining e-mail address
//! with `<email>`.

use vstd::prelude::*;
use crate::text::{
    ascii_alphanumeric, chars_eq_ignore_ascii_case, chars_of, eq_ignore_ascii_case, is_alphanumeric,
    is_ascii_alphanumeric, lead_ws_count, lemma_lead_ws_bounds, lemma_trail_ws_bounds, slice_to_vec,
    string_from_chars, trail_ws_count, trim, trim_end, trim_start, unicode_alphanumeric,
};

verus! {

/// Trailer tokens that name a person, compared case-insensitively.
pub open spec fn identity_token(t: Seq<char>) -> bool {
    ||| eq_ignore_ascii_case(t, "co-authored-by"@)
    ||| eq_ignore_ascii_case(t, "signed-off-by"@)
    ||| eq_ignore_ascii_case(t, "reviewed-by"@)
    ||| eq_ignore_ascii_case(t, "acked-by"@)
    ||| eq_ignore_ascii_case(t, "reported-by"@)
    ||| eq_ignore_ascii_case(t, "tested-by"@)
    ||| eq_ignore_ascii_case(t, "helped-by"@)
    ||| eq_ignore_ascii_case(t, "cc"@)
}

/// Position of the first `c` in `s`, if any.
pub open spec fn first_index_of(s: Seq<char>, c: char) -> Option<int>
    decreases s.len(),
{
    if s.len() == 0 {
        None
    } else if s[0] == c {
        Some(0)
    } else {
        match first_index_of(s.drop_first(), c) {
            Some(k) => Some(k + 1),
            None => None,
        }
    }
}

/// `line` is `Token: value` (after leading whitespace) with an identity
/// token, the token ending at the first colon, trailing whitespace ignored.
pub open spec fn identity_trailer(line: Seq<char>) -> bool {
    let t = trim_start(line);
    match first_index_of(t, ':') {
        Some(k) => identity_token(trim_end(t.take(k))),
        None => false,
    }
}

fn is_identity_token(t: &[char]) -> (r: bool)
    ensures
        r == identity_token(t@),
{
    let tokens: [&str; 8] = [
        "co-authored-by",
        "signed-off-by",
        "reviewed-by",
        "acked-by",
        "reported-by",
        "tested-by",
        "helped-by",
        "cc",
    ];
    let mut i: usize = 0;
    while i < 8
        invariant
            i <= 8,
            tokens@ == seq![
                "co-authored-by",
                "signed-off-by",
                "reviewed-by",
                "acked-by",
                "reported-by",
                "tested-by",
                "helped-by",
                "cc",
            ],
            forall|j: int| 0 <= j < i ==> !eq_ignore_ascii_case(t@, #[trigger] tokens@[j]@),
        decreases 8 - i,
    {
        let tok = chars_of(tokens[i]);
        if chars_eq_ignore_ascii_case(t, tok.as_slice()) {
            return true;
        }
        i = i + 1;
    }
    proof {
        assert(!eq_ignore_ascii_case(t@, tokens@[0]@));
        assert(!eq_ignore_ascii_case(t@, tokens@[1]@));
        assert(!eq_ignore_ascii_case(t@, tokens@[2]@));
        assert(!eq_ignore_ascii_case(t@, tokens@[3]@));
        assert(!eq_ignore_ascii_case(t@, tokens@[4]@));
        assert(!eq_ignore_ascii_case(t@, tokens@[5]@));
        assert(!eq_ignore_ascii_case(t@, tokens@[6]@));
        assert(!eq_ignore_ascii_case(t@, tokens@[7]@));
    }
    false
}

/// Position of the first `c` in `s` at or after `from`, or `s.len()`.
fn find_char(s: &[char], from: usize, c: char) -> (k: usize)
    requires
        from <= s.len(),
    ensures
        from <= k <= s.len(),
        forall|j: int| from <= j < k ==> s@[j] != c,
        k < s.len() ==> s@[k as int] == c,
{
    let mut k = from;
    while k < s.len() && s[k] != c
        invariant
            from <= k <= s.len(),
            forall|j: int| from <= j < k ==> s@[j] != c,
        decreases s.len() - k,
    {
        k = k + 1;
    }
    k
}

proof fn lemma_first_index_of(s: Seq<char>, c: char, k: int)
    requires
        0 <= k <= s.len(),
        forall|j: int| 0 <= j < k ==> s[j] != c,
        k < s.len() ==> s[k] == c,
    ensures
        first_index_of(s, c) == if k < s.len() {
            Some(k)
        } else {
            None::<int>
        },
    decreases s.len(),
{
    if s.len() > 0 && s[0] != c {
        lemma_first_index_of(s.drop_first(), c, k - 1);
    }
}

/// Whether `line` is an identity trailer.
pub fn is_identity_trailer(line: &[char]) -> (r: bool)
    ensures
        r == identity_trailer(line@),
{
    let a = lead_ws_count(line);
    proof {
        lemma_lead_ws_bounds(line@);
    }
    let k = find_char(line, a, ':');
    let ghost t = trim_start(line@);
    proof {
        assert(t == line@.skip(a as int));
        lemma_first_index_of(t, ':', k - a);
    }
    if k == line.len() {
        return false;
    }
    let token = slice_to_vec(line, a, k);
    assert(token@ == t.take(k - a));
    let b = trail_ws_count(token.as_slice());
    proof {
        lemma_trail_ws_bounds(token@);
    }
    let end = token.len() - b;
    let trimmed = slice_to_vec(token.as_slice(), 0, end);
    assert(trimmed@ == trim_end(token@));
    is_identity_token(trimmed.as_slice())
}

/// `line` without one trailing carriage return.
pub open spec fn strip_cr(line: Seq<char>) -> Seq<char> {
    if line.len() > 0 && line.last() == '\r' {
        line.drop_last()
    } else {
        line
    }
}

/// First position at or after `i` holding a newline, or `s.len()`.
pub open spec fn next_newline(s: Seq<char>, i: int) -> int
    decreases s.len() - i,
{
    if i >= s.len() || i < 0 {
        s.len() as int
    } else if s[i] == '\n' {
        i
    } else {
        next_newline(s, i + 1)
    }
}

/// The lines of `s` from position `start` (`str::lines`): split at `\n`,
/// a `\r` right before the `\n` dropped, the last line ending optional.
pub open spec fn lines_from(s: Seq<char>, start: int) -> Seq<Seq<char>>
    decreases s.len() - start,
{
    if start < 0 || start >= s.len() {
        Seq::empty()
    } else {
        let k = next_newline(s, start);
        proof {
            lemma_next_newline_ge(s, start);
        }
        if k >= s.len() {
            seq![s.subrange(start, s.len() as int)]
        } else {
            seq![strip_cr(s.subrange(start, k))] + lines_from(s, k + 1)
        }
    }
}

/// The lines that are not identity trailers, in order.
pub open spec fn kept_lines(ls: Seq<Seq<char>>) -> Seq<Seq<char>>
    decreases ls.len(),
{
    if ls.len() == 0 {
        Seq::empty()
    } else {
        let rest = kept_lines(ls.drop_first());
        if identity_trailer(ls[0]) {
            rest
        } else {
            seq![ls[0]] + rest
        }
    }
}

/// The lines joined with `\n`.
pub open spec fn join_lines(ls: Seq<Seq<char>>) -> Seq<char>
    decreases ls.len(),
{
    if ls.len() == 0 {
        Seq::empty()
    } else if ls.len() == 1 {
        ls[0]
    } else {
        join_lines(ls.drop_last()) + seq!['\n'] + ls.last()
    }
}

/// The body with its identity trailer lines removed, rejoined and trimmed.
pub open spec fn stripped_body(body: Seq<char>) -> Seq<char> {
    trim(join_lines(kept_lines(lines_from(body, 0))))
}

pub proof fn lemma_next_newline_ge(s: Seq<char>, i: int)
    requires
        0 <= i <= s.len(),
    ensures
        next_newline(s, i) >= i,
    decreases s.len() - i,
{
    if i < s.len() && s[i] != '\n' {
        lemma_next_newline_ge(s, i + 1);
    }
}

proof fn lemma_next_newline(s: Seq<char>, i: int, k: int)
    requires
        0 <= i <= k <= s.len(),
        forall|j: int| i <= j < k ==> s[j] != '\n',
        k < s.len() ==> s[k] == '\n',
    ensures
        next_newline(s, i) == k,
    decreases k - i,
{
    if i < k {
        lemma_next_newline(s, i + 1, k);
    }
}

/// Splits `s` into its lines (`str::lines`).
fn split_lines(s: &[char]) -> (lines: Vec<Vec<char>>)
    ensures
        lines.len() == lines_from(s@, 0).len(),
        forall|i: int| 0 <= i < lines.len() ==> #[trigger] lines[i]@ == lines_from(s@, 0)[i],
{
    let mut lines: Vec<Vec<char>> = Vec::new();
    let ghost mut done: Seq<Seq<char>> = Seq::empty();
    let mut start: usize = 0;
    while start < s.len()
        invariant
            start <= s.len(),
            lines.len() == done.len(),
            forall|i: int| 0 <= i < lines.len() ==> #[trigger] lines[i]@ == done[i],
            lines_from(s@, 0) == done + lines_from(s@, start as int),
        decreases s.len() - start,
    {
        let k = find_char(s, start, '\n');
        proof {
            lemma_next_newline(s@, start as int, k as int);
        }
        let mut line = slice_to_vec(s, start, k);
        if k < s.len() && line.len() > 0 && line[line.len() - 1] == '\r' {
            line.pop();
            proof {
                assert(line@ == strip_cr(s@.subrange(start as int, k as int)));
            }
        }
        proof {
            if k >= s.len() {
                assert(lines_from(s@, start as int) == seq![line@]);
            } else {
                assert(line@ == strip_cr(s@.subrange(start as int, k as int)));
                assert(lines_from(s@, start as int) == seq![line@] + lines_from(s@, k as int + 1));
            }
            done = done.push(line@);
        }
        lines.push(line);
        if k >= s.len() {
            proof {
                assert(lines_from(s@, 0) == done);
            }
            return lines;
        }
        proof {
            assert(lines_from(s@, 0) == done + lines_from(s@, k as int + 1));
        }
        start = k + 1;
    }
    assert(lines_from(s@, start as int) =~= Seq::<Seq<char>>::empty());
    assert(done =~= lines_from(s@, 0));
    lines
}

/// Drop every `Token: value` line whose token is an identity trailer.
pub fn strip_trailers(body: &str) -> (r: String)
    ensures
        r@ == stripped_body(body@),
{
    let chars = chars_of(body);
    let lines = split_lines(chars.as_slice());
    let ghost all = lines_from(chars@, 0);
    // keep the non-trailer lines
    let mut kept: Vec<Vec<char>> = Vec::new();
    let ghost mut kept_ghost: Seq<Seq<char>> = Seq::empty();
    let mut i: usize = 0;
    assert(all.skip(0) =~= all);
    while i < lines.len()
        invariant
            lines.len() == all.len(),
            forall|q: int| 0 <= q < lines.len() ==> #[trigger] lines[q]@ == all[q],
            i <= lines.len(),
            kept.len() == kept_ghost.len(),
            forall|q: int| 0 <= q < kept.len() ==> #[trigger] kept[q]@ == kept_ghost[q],
            kept_lines(all) == kept_ghost + kept_lines(all.skip(i as int)),
        decreases lines.len() - i,
    {
        proof {
            assert(all.skip(i as int)[0] == all[i as int]);
            assert(all.skip(i as int).drop_first() == all.skip(i as int + 1));
        }
        if !is_identity_trailer(lines[i].as_slice()) {
            let line = copy_chars(&lines[i]);
            proof {
                kept_ghost = kept_ghost.push(line@);
            }
            kept.push(line);
        }
        i = i + 1;
    }
    assert(all.skip(lines.len() as int) =~= Seq::<Seq<char>>::empty());
    assert(kept_ghost =~= kept_lines(all));
    // join with newlines
    let mut joined: Vec<char> = Vec::new();
    let mut j: usize = 0;
    assert(kept_ghost.take(0) =~= Seq::<Seq<char>>::empty());
    while j < kept.len()
        invariant
            kept.len() == kept_ghost.len(),
            forall|q: int| 0 <= q < kept.len() ==> #[trigger] kept[q]@ == kept_ghost[q],
            j <= kept.len(),
            joined@ == join_lines(kept_ghost.take(j as int)),
        decreases kept.len() - j,
    {
        proof {
            assert(kept_ghost.take(j as int + 1).drop_last() == kept_ghost.take(j as int));
        }
        if j > 0 {
            joined.push('\n');
        }
        let mut q: usize = 0;
        let ghost base = joined@;
        while q < kept[j].len()
            invariant
                j < kept.len(),
                q <= kept[j as int].len(),
                joined@ == base + kept[j as int]@.take(q as int),
            decreases kept[j as int].len() - q,
        {
            proof {
                assert(kept[j as int]@.take(q as int + 1) == kept[j as int]@.take(q as int).push(
                    kept[j as int]@[q as int],
                ));
            }
            joined.push(kept[j][q]);
            q = q + 1;
        }
        proof {
            assert(kept[j as int]@.take(q as int) == kept[j as int]@);
            if j == 0 {
                assert(kept_ghost.take(1) =~= seq![kept_ghost[0]]);
            }
        }
        j = j + 1;
    }
    assert(kept_ghost.take(kept.len() as int) == kept_ghost);
    // trim both ends
    let a = lead_ws_count(joined.as_slice());
    proof {
        lemma_lead_ws_bounds(joined@);
    }
    let rest = slice_to_vec(joined.as_slice(), a, joined.len());
    assert(rest@ == trim_start(joined@));
    let b = trail_ws_count(rest.as_slice());
    proof {
        lemma_trail_ws_bounds(rest@);
    }
    let out = slice_to_vec(rest.as_slice(), 0, rest.len() - b);
    assert(out@ == trim(joined@));
    string_from_chars(out.as_slice())
}

/// A copy of `v`.
fn copy_chars(v: &Vec<char>) -> (c: Vec<char>)
    ensures
        c@ == v@,
{
    slice_to_vec(v.as_slice(), 0, v.len())
}

/// A character allowed in the local part of an address.
pub open spec fn local_char_spec(c: char) -> bool {
    unicode_alphanumeric(c) || c == '.' || c == '_' || c == '%' || c == '+' || c == '-'
}

/// A character allowed in the domain of an address.
pub open spec fn domain_char_spec(c: char) -> bool {
    ascii_alphanumeric(c) || c == '.' || c == '-'
}

/// Whether `c` may appear in the local part of an address.
pub fn local_char(c: char) -> (r: bool)
    ensures
        r == local_char_spec(c),
{
    is_alphanumeric(c) || c == '.' || c == '_' || c == '%' || c == '+' || c == '-'
}

/// Whether `c` may appear in the domain of an address.
pub fn domain_char(c: char) -> (r: bool)
    ensures
        r == domain_char_spec(c),
{
    is_ascii_alphanumeric(c) || c == '.' || c == '-'
}

/// Start of the run of local-part characters that ends at `i`.
pub open spec fn local_start(s: Seq<char>, i: int) -> int
    decreases i,
{
    if i <= 0 || i > s.len() || !local_char_spec(s[i - 1]) {
        i
    } else {
        local_start(s, i - 1)
    }
}

/// End of the run of domain characters that starts at `j`.
pub open spec fn domain_scan(s: Seq<char>, j: int) -> int
    decreases s.len() - j,
{
    if j < 0 || j >= s.len() || !domain_char_spec(s[j]) {
        j
    } else {
        domain_scan(s, j + 1)
    }
}

/// `end`, moved left past trailing dots but not below `lo`: trailing dots
/// belong to the sentence, not the domain.
pub open spec fn trim_dots(s: Seq<char>, lo: int, end: int) -> int
    decreases end - lo,
{
    if end > lo && end <= s.len() && s[end - 1] == '.' {
        trim_dots(s, lo, end - 1)
    } else {
        end
    }
}

/// End of the domain of an address whose `@` is at `i`.
pub open spec fn domain_end(s: Seq<char>, i: int) -> int {
    trim_dots(s, i + 1, domain_scan(s, i + 1))
}

/// The `@` at `i` is the `@` of an address: a non-empty local part before
/// it, and a domain after it that holds a dot and does not start with one.
pub open spec fn address_at(s: Seq<char>, i: int) -> bool {
    &&& 0 <= i < s.len()
    &&& s[i] == '@'
    &&& local_start(s, i) < i
    &&& s.subrange(i + 1, domain_end(s, i)).contains('.')
    &&& s.subrange(i + 1, domain_end(s, i))[0] != '.'
}

/// The replacement written for an address.
pub open spec fn email_marker() -> Seq<char> {
    seq!['<', 'e', 'm', 'a', 'i', 'l', '>']
}

pub proof fn lemma_domain_bounds(s: Seq<char>, i: int)
    requires
        0 <= i < s.len(),
    ensures
        i + 1 <= domain_end(s, i) <= domain_scan(s, i + 1) <= s.len(),
{
    lemma_domain_scan_bounds(s, i + 1);
    lemma_trim_dots_bounds(s, i + 1, domain_scan(s, i + 1));
}

proof fn lemma_domain_scan_bounds(s: Seq<char>, j: int)
    requires
        0 <= j <= s.len(),
    ensures
        j <= domain_scan(s, j) <= s.len(),
    decreases s.len() - j,
{
    if j < s.len() && domain_char_spec(s[j]) {
        lemma_domain_scan_bounds(s, j + 1);
    }
}

proof fn lemma_trim_dots_bounds(s: Seq<char>, lo: int, end: int)
    requires
        lo <= end,
    ensures
        lo <= trim_dots(s, lo, end) <= end,
    decreases end - lo,
{
    if end > lo && end <= s.len() && s[end - 1] == '.' {
        lemma_trim_dots_bounds(s, lo, end - 1);
    }
}

proof fn lemma_local_start_bounds(s: Seq<char>, i: int)
    requires
        0 <= i <= s.len(),
    ensures
        0 <= local_start(s, i) <= i,
    decreases i,
{
    if i > 0 && local_char_spec(s[i - 1]) {
        lemma_local_start_bounds(s, i - 1);
    }
}

/// Bytes in the UTF-8 encoding of `c`.
pub open spec fn utf8_width_of(c: char) -> int {
    if (c as u32) < 0x80 {
        1
    } else if (c as u32) < 0x800 {
        2
    } else if (c as u32) < 0x10000 {
        3
    } else {
        4
    }
}

/// Bytes in the UTF-8 encoding of `s`.
pub open spec fn utf8_len(s: Seq<char>) -> int
    decreases s.len(),
{
    if s.len() == 0 {
        0
    } else {
        utf8_len(s.drop_last()) + utf8_width_of(s.last())
    }
}

/// `out` with its last `n` bytes removed (`String::truncate` to `n` bytes
/// fewer); `None` when that cuts a character in two or removes more than
/// `out` holds, where the truncation panics.
pub open spec fn drop_bytes(out: Seq<char>, n: int) -> Option<Seq<char>>
    decreases out.len(),
{
    if n <= 0 {
        Some(out)
    } else if out.len() == 0 || utf8_width_of(out.last()) > n {
        None
    } else {
        drop_bytes(out.drop_last(), n - utf8_width_of(out.last()))
    }
}

/// Output of the left-to-right redaction from position `i`, with `out`
/// written so far. At an address, the bytes of its local part are taken
/// back off the end of `out` and the marker written instead, and the scan
/// resumes after the domain; any other character is copied. `None` when
/// taking the bytes back panics.
pub open spec fn redact_from(s: Seq<char>, i: int, out: Seq<char>) -> Option<Seq<char>>
    decreases s.len() - i,
{
    if i < 0 || i >= s.len() {
        Some(out)
    } else if address_at(s, i) {
        proof {
            lemma_domain_bounds(s, i);
        }
        match drop_bytes(out, utf8_len(s.subrange(local_start(s, i), i))) {
            Some(kept) => redact_from(s, domain_end(s, i), kept + email_marker()),
            None => None,
        }
    } else {
        redact_from(s, i + 1, out.push(s[i]))
    }
}

/// The text with every `local@domain.tld` address replaced by `<email>`;
/// `None` for the texts on which the redaction panics.
pub open spec fn redacted(s: Seq<char>) -> Option<Seq<char>> {
    redact_from(s, 0, Seq::empty())
}

fn utf8_width(c: char) -> (n: u128)
    ensures
        n == utf8_width_of(c),
        1 <= n <= 4,
{
    let v = c as u32;
    if v < 0x80 {
        1
    } else if v < 0x800 {
        2
    } else if v < 0x10000 {
        3
    } else {
        4
    }
}

proof fn lemma_utf8_len_bounds(s: Seq<char>)
    ensures
        0 <= utf8_len(s) <= 4 * s.len(),
    decreases s.len(),
{
    if s.len() > 0 {
        lemma_utf8_len_bounds(s.drop_last());
    }
}

/// Replace every `local@domain.tld` address with `<email>`, or `None`
/// where taking an address's local part back off the output would cut a
/// character in two or reach before its start.
///
/// Bare `@` mentions, an `@` without a dotted domain and sentence-final
/// dots are left alone.
pub fn try_redact_emails(text: &str) -> (r: Option<String>)
    ensures
        match r {
            Some(x) => redacted(text@) == Some(x@),
            None => redacted(text@) is None,
        },
{
    let chars = chars_of(text);
    let ghost s = chars@;
    let n = chars.len();
    let mut out: Vec<char> = Vec::new();
    let mut i: usize = 0;
    while i < n
        invariant
            s == chars@,
            n == s.len(),
            i <= n,
            redacted(s) == redact_from(s, i as int, out@),
            s == text@,
        decreases n - i,
    {
        if chars[i] == '@' {
            let mut start = i;
            while start > 0 && local_char(chars[start - 1])
                invariant
                    s == chars@,
                    n == s.len(),
                    start <= i < n,
                    local_start(s, i as int) == local_start(s, start as int),
                decreases start,
            {
                start = start - 1;
            }
            let mut end = i + 1;
            while end < n && domain_char(chars[end])
                invariant
                    s == chars@,
                    n == s.len(),
                    i < n,
                    i + 1 <= end <= n,
                    domain_scan(s, i + 1) == domain_scan(s, end as int),
                decreases n - end,
            {
                end = end + 1;
            }
            while end > i + 1 && chars[end - 1] == '.'
                invariant
                    s == chars@,
                    n == s.len(),
                    i < n,
                    i + 1 <= end <= n,
                    domain_end(s, i as int) == trim_dots(s, i + 1, end as int),
                decreases end,
            {
                end = end - 1;
            }
            let mut has_dot = false;
            let mut k = i + 1;
            while k < end
                invariant
                    s == chars@,
                    n == s.len(),
                    i < n,
                    i + 1 <= k <= end <= n,
                    has_dot == s.subrange(i + 1, k as int).contains('.'),
                decreases end - k,
            {
                let ghost prev = s.subrange(i + 1, k as int);
                proof {
                    assert(s.subrange(i + 1, k as int + 1) == prev.push(s[k as int]));
                    if chars[k as int] == '.' {
                        assert(prev.push(s[k as int])[prev.len() as int] == '.');
                    } else {
                        if prev.push(s[k as int]).contains('.') {
                            let q = choose|q: int| 0 <= q < prev.len() + 1 && #[trigger] prev.push(s[k as int])[q] == '.';
                            assert(prev[q] == '.');
                        }
                        if prev.contains('.') {
                            let q = choose|q: int| 0 <= q < prev.len() && #[trigger] prev[q] == '.';
                            assert(prev.push(s[k as int])[q] == '.');
                        }
                    }
                }
                if chars[k] == '.' {
                    has_dot = true;
                }
                k = k + 1;
            }
            proof {
                assert(domain_end(s, i as int) == end);
                if !has_dot {
                    assert(!s.subrange(i + 1, end as int).contains('.'));
                }
            }
            if start < i && has_dot && chars[i + 1] != '.' {
                proof {
                    assert(local_start(s, start as int) == start);
                    assert(s.subrange(i + 1, end as int)[0] == s[i + 1]);
                    assert(address_at(s, i as int));
                    lemma_domain_bounds(s, i as int);
                }
                let mut need: u128 = 0;
                let mut k = start;
                while k < i
                    invariant
                        s == chars@,
                        n == s.len(),
                        start <= k <= i < n,
                        need == utf8_len(s.subrange(start as int, k as int)),
                    decreases i - k,
                {
                    proof {
                        assert(s.subrange(start as int, k as int + 1).drop_last() =~= s.subrange(
                            start as int,
                            k as int,
                        ));
                        lemma_utf8_len_bounds(s.subrange(start as int, k as int));
                    }
                    need = need + utf8_width(chars[k]);
                    k = k + 1;
                }
                let ghost before = out@;
                while need > 0 && out.len() > 0 && utf8_width(out[out.len() - 1]) <= need
                    invariant
                        drop_bytes(before, utf8_len(s.subrange(start as int, i as int))) == drop_bytes(
                            out@,
                            need as int,
                        ),
                    decreases out.len(),
                {
                    let w = utf8_width(out[out.len() - 1]);
                    need = need - w;
                    out.pop();
                }
                if need > 0 {
                    proof {
                        assert(drop_bytes(out@, need as int) is None);
                        assert(drop_bytes(before, utf8_len(s.subrange(start as int, i as int))) is None);
                        assert(redact_from(s, i as int, before) is None);
                    }
                    return None;
                }
                let ghost kept = out@;
                out.push('<');
                out.push('e');
                out.push('m');
                out.push('a');
                out.push('i');
                out.push('l');
                out.push('>');
                proof {
                    assert(out@ =~= kept + email_marker());
                }
                i = end;
                continue;
            }
            proof {
                if start < i && has_dot {
                    assert(s.subrange(i + 1, end as int)[0] == s[i + 1]);
                }
                assert(local_start(s, start as int) == start);
                assert(!address_at(s, i as int));
            }
        }
        out.push(chars[i]);
        i = i + 1;
    }
    Some(string_from_chars(out.as_slice()))
}

/// Replace every `local@domain.tld` address with `<email>`, for a text on
/// which the redaction does not panic (see [`try_redact_emails`]).
pub fn redact_emails(text: &str) -> (r: String)
    requires
        redacted(text@) is Some,
    ensures
        redacted(text@) == Some(r@),
{
    match try_redact_emails(text) {
        Some(r) => r,
        None => String::new(),
    }
}

proof fn lemma_no_at_unchanged(s: Seq<char>, i: int)
    requires
        0 <= i <= s.len(),
        !s.contains('@'),
    ensures
        redact_from(s, i, s.take(i)) == Some(s),
    decreases s.len() - i,
{
    if i < s.len() {
        assert(s[i] != '@');
        assert(s.take(i).push(s[i]) == s.take(i + 1));
        lemma_no_at_unchanged(s, i + 1);
    } else {
        assert(s.take(i) == s);
    }
}

/// Text without an `@` passes the redaction unchanged.
pub proof fn lemma_redaction_keeps_text_without_at(s: Seq<char>)
    requires
        !s.contains('@'),
    ensures
        redacted(s) == Some(s),
{
    assert(s.take(0) =~= Seq::<char>::empty());
    lemma_no_at_unchanged(s, 0);
}

/// The identity trailers are exactly the eight person-naming tokens, in
/// any ASCII case: `Co-authored-by`, `Signed-off-by`, `Reviewed-by`,
/// `Acked-by`, `Reported-by`, `Tested-by`, `Helped-by` and `Cc`; the
/// stripped body keeps no line whose token is one of them.
pub proof fn lemma_identity_tokens(t: Seq<char>)
    ensures
        eq_ignore_ascii_case(t, "co-authored-by"@) ==> identity_token(t),
        eq_ignore_ascii_case(t, "signed-off-by"@) ==> identity_token(t),
        eq_ignore_ascii_case(t, "reviewed-by"@) ==> identity_token(t),
        eq_ignore_ascii_case(t, "acked-by"@) ==> identity_token(t),
        eq_ignore_ascii_case(t, "reported-by"@) ==> identity_token(t),
        eq_ignore_ascii_case(t, "tested-by"@) ==> identity_token(t),
        eq_ignore_ascii_case(t, "helped-by"@) ==> identity_token(t),
        eq_ignore_ascii_case(t, "cc"@) ==> identity_token(t),
        identity_token(t) ==> (eq_ignore_ascii_case(t, "co-authored-by"@) || eq_ignore_ascii_case(
            t,
            "signed-off-by"@,
        ) || eq_ignore_ascii_case(t, "reviewed-by"@) || eq_ignore_ascii_case(t, "acked-by"@)
            || eq_ignore_ascii_case(t, "reported-by"@) || eq_ignore_ascii_case(t, "tested-by"@)
            || eq_ignore_ascii_case(t, "helped-by"@) || eq_ignore_ascii_case(t, "cc"@)),
{
}

} // verus!
