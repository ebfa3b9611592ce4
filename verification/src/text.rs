//! Character-level helpers shared by the string logic of the library.

use vstd::prelude::*;

verus! {

/// The characters of `s`, in order.
pub fn chars_of(s: &str) -> (v: Vec<char>)
    ensures
        v@ == s@,
{
    broadcast use vstd::string::group_string_axioms;

    let mut v: Vec<char> = Vec::new();
    for c in it: s.chars()
        invariant
            v@ == it.seq().take(it.index() as int),
            it.seq() == s@,
    {
        v.push(c);
    }
    v
}

/// Collects `chars` into a string (`String: FromIterator<&char>`); the
/// string holds exactly those characters.
#[verifier::external_body]
pub fn string_from_chars(chars: &[char]) -> (s: String)
    ensures
        s@ == chars@,
{
    chars.iter().collect()
}

/// Whether two character sequences are equal.
pub fn chars_eq(a: &[char], b: &[char]) -> (r: bool)
    ensures
        r == (a@ == b@),
{
    if a.len() != b.len() {
        return false;
    }
    let mut i: usize = 0;
    while i < a.len()
        invariant
            a.len() == b.len(),
            i <= a.len(),
            forall|k: int| 0 <= k < i ==> a@[k] == b@[k],
        decreases a.len() - i,
    {
        if a[i] != b[i] {
            return false;
        }
        i = i + 1;
    }
    assert(a@ =~= b@);
    true
}

/// Whether two strings hold the same characters.
pub fn str_eq(a: &str, b: &str) -> (r: bool)
    ensures
        r == (a@ == b@),
{
    let x = chars_of(a);
    let y = chars_of(b);
    chars_eq(x.as_slice(), y.as_slice())
}

/// Lexicographic order on characters by code point; it is the order Rust
/// gives `String` (byte-wise order of the UTF-8 encoding).
pub open spec fn str_less(a: Seq<char>, b: Seq<char>) -> bool
    decreases a.len(),
{
    if a.len() == 0 {
        b.len() > 0
    } else if b.len() == 0 {
        false
    } else if a[0] != b[0] {
        (a[0] as u32) < (b[0] as u32)
    } else {
        str_less(a.drop_first(), b.drop_first())
    }
}

/// Whether `a` sorts strictly before `b`.
pub fn chars_less(a: &[char], b: &[char]) -> (r: bool)
    ensures
        r == str_less(a@, b@),
{
    let mut i: usize = 0;
    assert(a@.skip(0) =~= a@);
    assert(b@.skip(0) =~= b@);
    while i < a.len() && i < b.len()
        invariant
            i <= a.len(),
            i <= b.len(),
            forall|k: int| 0 <= k < i ==> a@[k] == b@[k],
            str_less(a@, b@) == str_less(a@.skip(i as int), b@.skip(i as int)),
        decreases a.len() - i,
    {
        if a[i] != b[i] {
            proof {
                assert(a@.skip(i as int)[0] == a@[i as int]);
                assert(b@.skip(i as int)[0] == b@[i as int]);
            }
            return (a[i] as u32) < (b[i] as u32);
        }
        proof {
            assert(a@.skip(i as int).drop_first() == a@.skip(i as int + 1));
            assert(b@.skip(i as int).drop_first() == b@.skip(i as int + 1));
        }
        i = i + 1;
    }
    i < b.len()
}

/// Whether `c` has the Unicode White_Space property, which is what
/// `char::is_whitespace` answers: the 25 code points U+0009 to U+000D,
/// U+0020, U+0085, U+00A0, U+1680, U+2000 to U+200A, U+2028, U+2029,
/// U+202F, U+205F and U+3000 (`PropList.txt`).
pub open spec fn unicode_white_space(c: char) -> bool {
    let v = c as u32;
    (0x9 <= v <= 0xD) || v == 0x20 || v == 0x85 || v == 0xA0 || v == 0x1680 || (0x2000 <= v <= 0x200A) || v
        == 0x2028 || v == 0x2029 || v == 0x202F || v == 0x205F || v == 0x3000
}

/// Whether `c` is alphabetic or numeric in Unicode (the answer of
/// `char::is_alphanumeric`).
pub uninterp spec fn unicode_alphanumeric(c: char) -> bool;

/// Whether `c` is Unicode white space (`char::is_whitespace`).
pub fn is_whitespace(c: char) -> (r: bool)
    ensures
        r == unicode_white_space(c),
{
    let v = c as u32;
    (0x9 <= v && v <= 0xD) || v == 0x20 || v == 0x85 || v == 0xA0 || v == 0x1680 || (0x2000 <= v && v <= 0x200A)
        || v == 0x2028 || v == 0x2029 || v == 0x202F || v == 0x205F || v == 0x3000
}

/// Calls `char::is_alphanumeric`. Claimed: the answer is the one named by
/// [`unicode_alphanumeric`], and on ASCII it is true exactly for the letters
/// and digits (std documents ASCII letters as alphabetic and ASCII digits as
/// numeric, and no other ASCII character as either). Which non-ASCII
/// characters have it is left to the name.
#[verifier::external_body]
pub fn is_alphanumeric(c: char) -> (r: bool)
    ensures
        r == unicode_alphanumeric(c),
        (c as u32) < 128 ==> (r <==> ascii_alphanumeric(c)),
{
    c.is_alphanumeric()
}

/// An ASCII letter or digit.
pub open spec fn ascii_alphanumeric(c: char) -> bool {
    ('0' <= c && c <= '9') || ('a' <= c && c <= 'z') || ('A' <= c && c <= 'Z')
}

/// Whether `c` is an ASCII letter or digit.
pub fn is_ascii_alphanumeric(c: char) -> (r: bool)
    ensures
        r == ascii_alphanumeric(c),
{
    ('0' <= c && c <= '9') || ('a' <= c && c <= 'z') || ('A' <= c && c <= 'Z')
}

/// ASCII lower-case form of `c` (other characters unchanged).
pub open spec fn ascii_lower(c: char) -> char {
    if 'A' <= c && c <= 'Z' {
        ((c as u32) + 32) as char
    } else {
        c
    }
}

/// `a` and `b` are equal ignoring ASCII case.
pub open spec fn eq_ignore_ascii_case(a: Seq<char>, b: Seq<char>) -> bool {
    a.len() == b.len() && forall|k: int| 0 <= k < a.len() ==> #[trigger] ascii_lower(a[k]) == ascii_lower(b[k])
}

/// ASCII lower-case form of `c`.
pub fn to_ascii_lower(c: char) -> (r: char)
    ensures
        r == ascii_lower(c),
{
    if 'A' <= c && c <= 'Z' {
        let code: u8 = (c as u8) + 32;
        code as char
    } else {
        c
    }
}

/// Whether `a` and `b` are equal ignoring ASCII case.
pub fn chars_eq_ignore_ascii_case(a: &[char], b: &[char]) -> (r: bool)
    ensures
        r == eq_ignore_ascii_case(a@, b@),
{
    if a.len() != b.len() {
        return false;
    }
    let mut i: usize = 0;
    while i < a.len()
        invariant
            a.len() == b.len(),
            i <= a.len(),
            forall|k: int| 0 <= k < i ==> #[trigger] ascii_lower(a@[k]) == ascii_lower(b@[k]),
        decreases a.len() - i,
    {
        if to_ascii_lower(a[i]) != to_ascii_lower(b[i]) {
            return false;
        }
        i = i + 1;
    }
    true
}

/// Number of leading whitespace characters of `s`.
pub open spec fn lead_ws(s: Seq<char>) -> int
    decreases s.len(),
{
    if s.len() == 0 || !unicode_white_space(s[0]) {
        0
    } else {
        1 + lead_ws(s.drop_first())
    }
}

/// Number of trailing whitespace characters of `s`.
pub open spec fn trail_ws(s: Seq<char>) -> int
    decreases s.len(),
{
    if s.len() == 0 || !unicode_white_space(s.last()) {
        0
    } else {
        1 + trail_ws(s.drop_last())
    }
}

/// `s` without leading whitespace (`str::trim_start`).
pub open spec fn trim_start(s: Seq<char>) -> Seq<char> {
    s.skip(lead_ws(s))
}

/// `s` without trailing whitespace (`str::trim_end`).
pub open spec fn trim_end(s: Seq<char>) -> Seq<char> {
    s.take(s.len() - trail_ws(s))
}

/// `s` without leading or trailing whitespace (`str::trim`).
pub open spec fn trim(s: Seq<char>) -> Seq<char> {
    trim_end(trim_start(s))
}

pub proof fn lemma_lead_ws_bounds(s: Seq<char>)
    ensures
        0 <= lead_ws(s) <= s.len(),
        forall|k: int| 0 <= k < lead_ws(s) ==> unicode_white_space(#[trigger] s[k]),
    decreases s.len(),
{
    if s.len() > 0 && unicode_white_space(s[0]) {
        lemma_lead_ws_bounds(s.drop_first());
        assert forall|k: int| 0 <= k < lead_ws(s) implies unicode_white_space(#[trigger] s[k]) by {
            if k > 0 {
                assert(s[k] == s.drop_first()[k - 1]);
            }
        }
    }
}

pub proof fn lemma_trail_ws_bounds(s: Seq<char>)
    ensures
        0 <= trail_ws(s) <= s.len(),
        forall|k: int| s.len() - trail_ws(s) <= k < s.len() ==> unicode_white_space(#[trigger] s[k]),
    decreases s.len(),
{
    if s.len() > 0 && unicode_white_space(s.last()) {
        lemma_trail_ws_bounds(s.drop_last());
        assert forall|k: int| s.len() - trail_ws(s) <= k < s.len() implies unicode_white_space(
            #[trigger] s[k],
        ) by {
            if k < s.len() - 1 {
                assert(s[k] == s.drop_last()[k]);
            }
        }
    }
}

/// Number of leading whitespace characters of `s`.
pub fn lead_ws_count(s: &[char]) -> (n: usize)
    ensures
        n as int == lead_ws(s@),
{
    let mut n: usize = 0;
    assert(s@.skip(0) =~= s@);
    while n < s.len() && is_whitespace(s[n])
        invariant
            n <= s.len(),
            lead_ws(s@) == n + lead_ws(s@.skip(n as int)),
        decreases s.len() - n,
    {
        assert(s@.skip(n as int).drop_first() == s@.skip(n as int + 1));
        n = n + 1;
    }
    n
}

/// Number of trailing whitespace characters of `s`.
pub fn trail_ws_count(s: &[char]) -> (n: usize)
    ensures
        n as int == trail_ws(s@),
{
    let mut n: usize = 0;
    assert(s@.take(s.len() as int) =~= s@);
    while n < s.len() && is_whitespace(s[s.len() - 1 - n])
        invariant
            n <= s.len(),
            trail_ws(s@) == n + trail_ws(s@.take(s.len() - n)),
        decreases s.len() - n,
    {
        assert(s@.take(s.len() - n).drop_last() == s@.take(s.len() - n - 1));
        n = n + 1;
    }
    n
}

/// Whether every character of `s` is whitespace (`s.trim().is_empty()`).
pub fn is_blank(s: &str) -> (r: bool)
    ensures
        r == (forall|k: int| 0 <= k < s@.len() ==> unicode_white_space(#[trigger] s@[k])),
{
    let v = chars_of(s);
    let n = lead_ws_count(v.as_slice());
    proof {
        lemma_lead_ws_bounds(v@);
        if n < v.len() {
            lemma_lead_ws_first_non_ws(v@);
        }
    }
    n == v.len()
}

proof fn lemma_lead_ws_first_non_ws(s: Seq<char>)
    requires
        lead_ws(s) < s.len(),
    ensures
        lead_ws(s) >= 0,
        !unicode_white_space(s[lead_ws(s)]),
    decreases s.len(),
{
    if s.len() > 0 && unicode_white_space(s[0]) {
        lemma_lead_ws_first_non_ws(s.drop_first());
    }
}

/// `hay` holds `needle` at some position.
pub open spec fn has_substring(hay: Seq<char>, needle: Seq<char>) -> bool {
    exists|i: int| 0 <= i && i + needle.len() <= hay.len() && #[trigger] hay.subrange(i, i + needle.len()) == needle
}

/// Whether `hay` holds `needle` at some position.
pub fn contains_chars(hay: &[char], needle: &[char]) -> (r: bool)
    ensures
        r == has_substring(hay@, needle@),
{
    if needle.len() > hay.len() {
        return false;
    }
    let last = hay.len() - needle.len();
    let mut i: usize = 0;
    while i <= last
        invariant
            last == hay.len() - needle.len(),
            i <= last + 1,
            forall|q: int| 0 <= q < i ==> #[trigger] hay@.subrange(q, q + needle.len()) != needle@,
        decreases last + 1 - i,
    {
        let mut k: usize = 0;
        while k < needle.len() && hay[i + k] == needle[k]
            invariant
                i <= last,
                last == hay.len() - needle.len(),
                k <= needle.len(),
                forall|q: int| 0 <= q < k ==> hay@[i + q] == needle@[q],
            decreases needle.len() - k,
        {
            k = k + 1;
        }
        if k == needle.len() {
            assert(hay@.subrange(i as int, i + needle.len()) =~= needle@);
            return true;
        }
        assert(hay@.subrange(i as int, i + needle.len())[k as int] != needle@[k as int]);
        i = i + 1;
    }
    proof {
        assert forall|q: int| 0 <= q && q + needle.len() <= hay.len() implies #[trigger] hay@.subrange(
            q,
            q + needle.len(),
        ) != needle@ by {
            assert(q < i);
        }
    }
    false
}

/// Every character of `s` is whitespace.
pub open spec fn blank(s: Seq<char>) -> bool {
    forall|k: int| 0 <= k < s.len() ==> unicode_white_space(#[trigger] s[k])
}

/// The Unicode lower-case form of a string (the answer of
/// `str::to_lowercase`).
pub uninterp spec fn unicode_lowercase(s: Seq<char>) -> Seq<char>;

/// Calls `str::to_lowercase`. Claimed: the result is the string named by
/// [`unicode_lowercase`] of `s`; nothing is claimed of its characters.
#[verifier::external_body]
pub fn to_lowercase(s: &str) -> (r: String)
    ensures
        r@ == unicode_lowercase(s@),
{
    s.to_lowercase()
}

/// The `Debug` rendering of a string: quoted, with escapes.
pub uninterp spec fn debug_quoted(s: Seq<char>) -> Seq<char>;

/// Formats `s` with `{:?}` (`<str as Debug>::fmt`). Claimed: the result is
/// the rendering named by [`debug_quoted`] of `s`; nothing is claimed of
/// its characters.
#[verifier::external_body]
pub fn debug_quote(s: &str) -> (r: String)
    ensures
        r@ == debug_quoted(s@),
{
    format!("{:?}", s)
}


/// The whitespace-separated words of `s` (`str::split_whitespace`), in
/// order; none is empty.
pub open spec fn words(s: Seq<char>) -> Seq<Seq<char>>
    decreases s.len(),
{
    if s.len() == 0 {
        Seq::empty()
    } else {
        let w = words(s.drop_last());
        let c = s.last();
        if unicode_white_space(c) {
            w
        } else if s.len() >= 2 && !unicode_white_space(s[s.len() - 2]) && w.len() > 0 {
            w.update(w.len() - 1, w.last().push(c))
        } else {
            w.push(seq![c])
        }
    }
}

/// `parts` joined with `sep` between neighbours (`[T]::join`).
pub open spec fn join_with(parts: Seq<Seq<char>>, sep: Seq<char>) -> Seq<char>
    decreases parts.len(),
{
    if parts.len() == 0 {
        Seq::empty()
    } else if parts.len() == 1 {
        parts[0]
    } else {
        join_with(parts.drop_last(), sep) + sep + parts.last()
    }
}

proof fn lemma_join_extend_last(parts: Seq<Seq<char>>, sep: Seq<char>, c: char)
    requires
        parts.len() > 0,
    ensures
        join_with(parts.update(parts.len() - 1, parts.last().push(c)), sep) == join_with(parts, sep).push(c),
{
    let q = parts.update(parts.len() - 1, parts.last().push(c));
    if parts.len() > 1 {
        assert(q.drop_last() =~= parts.drop_last());
        assert(join_with(q, sep) =~= join_with(parts, sep).push(c));
    }
}

proof fn lemma_join_push(parts: Seq<Seq<char>>, sep: Seq<char>, w: Seq<char>)
    ensures
        join_with(parts.push(w), sep) == if parts.len() == 0 {
            w
        } else {
            join_with(parts, sep) + sep + w
        },
{
    assert(parts.push(w).drop_last() =~= parts);
}

/// The words of `s` joined by single spaces: runs of whitespace collapse
/// to one space and the ends are trimmed
/// (`s.split_whitespace().collect::<Vec<_>>().join(" ")`).
pub fn collapse_whitespace(s: &[char]) -> (v: Vec<char>)
    ensures
        v@ == join_with(words(s@), seq![' ']),
{
    let mut out: Vec<char> = Vec::new();
    let mut i: usize = 0;
    while i < s.len()
        invariant
            i <= s.len(),
            out@ == join_with(words(s@.take(i as int)), seq![' ']),
        decreases s.len() - i,
    {
        let ghost w = words(s@.take(i as int));
        proof {
            assert(s@.take(i as int + 1).drop_last() =~= s@.take(i as int));
            assert(s@.take(i as int + 1).last() == s@[i as int]);
            lemma_words_nonempty(s@.take(i as int));
            if w.len() > 0 {
                lemma_join_nonempty(w, seq![' ']);
            }
        }
        let c = s[i];
        if !is_whitespace(c) {
            let extend = i > 0 && !is_whitespace(s[i - 1]) && out.len() > 0;
            proof {
                if i > 0 {
                    assert(s@.take(i as int + 1)[i - 1] == s@[i - 1]);
                }
                if w.len() == 0 {
                    assert(out@ =~= Seq::<char>::empty());
                }
            }
            if extend {
                proof {
                    lemma_join_extend_last(w, seq![' '], c);
                }
                out.push(c);
            } else {
                proof {
                    lemma_join_push(w, seq![' '], seq![c]);
                }
                if out.len() > 0 {
                    out.push(' ');
                }
                out.push(c);
                proof {
                    if w.len() > 0 {
                        assert(out@ =~= join_with(w, seq![' ']) + seq![' '] + seq![c]);
                    } else {
                        assert(out@ =~= seq![c]);
                    }
                }
            }
        }
        i = i + 1;
    }
    assert(s@.take(s.len() as int) =~= s@);
    out
}

proof fn lemma_words_nonempty(s: Seq<char>)
    ensures
        forall|k: int| 0 <= k < words(s).len() ==> #[trigger] words(s)[k].len() > 0,
    decreases s.len(),
{
    if s.len() > 0 {
        lemma_words_nonempty(s.drop_last());
        let w = words(s.drop_last());
        let c = s.last();
        assert forall|k: int| 0 <= k < words(s).len() implies #[trigger] words(s)[k].len() > 0 by {
            if !unicode_white_space(c) && k < w.len() {
                assert(w[k].len() > 0);
            }
        }
    }
}

proof fn lemma_join_nonempty(parts: Seq<Seq<char>>, sep: Seq<char>)
    requires
        parts.len() > 0,
        parts[0].len() > 0,
    ensures
        join_with(parts, sep).len() > 0,
    decreases parts.len(),
{
    if parts.len() > 1 {
        assert(parts.drop_last()[0] == parts[0]);
        lemma_join_nonempty(parts.drop_last(), sep);
    }
}

/// The characters `s[from..to]`.
pub fn slice_to_vec(s: &[char], from: usize, to: usize) -> (v: Vec<char>)
    requires
        from <= to <= s.len(),
    ensures
        v@ == s@.subrange(from as int, to as int),
{
    let mut v: Vec<char> = Vec::new();
    let mut i = from;
    while i < to
        invariant
            from <= i <= to <= s.len(),
            v@ == s@.subrange(from as int, i as int),
        decreases to - i,
    {
        v.push(s[i]);
        i = i + 1;
    }
    v
}

/// `s` without leading or trailing whitespace (`str::trim`).
pub fn trim_chars(s: &[char]) -> (v: Vec<char>)
    ensures
        v@ == trim(s@),
{
    let a = lead_ws_count(s);
    proof {
        lemma_lead_ws_bounds(s@);
    }
    let rest = slice_to_vec(s, a, s.len());
    assert(rest@ == trim_start(s@));
    let b = trail_ws_count(rest.as_slice());
    proof {
        lemma_trail_ws_bounds(rest@);
    }
    slice_to_vec(rest.as_slice(), 0, rest.len() - b)
}


/// `str_less` is a strict total order: irreflexive, and of two different
/// sequences exactly one sorts first.
pub proof fn lemma_str_less_total(a: Seq<char>, b: Seq<char>)
    ensures
        !str_less(a, a),
        a != b ==> (str_less(a, b) || str_less(b, a)),
        !(str_less(a, b) && str_less(b, a)),
    decreases a.len(),
{
    if a.len() > 0 {
        lemma_str_less_total(a.drop_first(), a.drop_first());
    }
    if a.len() > 0 && b.len() > 0 && a[0] == b[0] {
        lemma_str_less_total(a.drop_first(), b.drop_first());
        if a != b {
            assert(a.drop_first() != b.drop_first()) by {
                if a.drop_first() == b.drop_first() {
                    assert(a =~= seq![a[0]] + a.drop_first());
                    assert(b =~= seq![b[0]] + b.drop_first());
                }
            }
        }
    }
    if a.len() == 0 && b.len() == 0 {
        assert(a =~= b);
    }
    if a.len() > 0 && b.len() > 0 && a[0] != b[0] {
        vstd::utf8::char_u32_cast(a[0], a[0] as u32);
        vstd::utf8::char_u32_cast(b[0], b[0] as u32);
    }
}

/// `str_less` is transitive.
pub proof fn lemma_str_less_trans(a: Seq<char>, b: Seq<char>, c: Seq<char>)
    requires
        str_less(a, b),
        str_less(b, c),
    ensures
        str_less(a, c),
    decreases a.len(),
{
    if a.len() > 0 && b.len() > 0 && c.len() > 0 && a[0] == b[0] && b[0] == c[0] {
        lemma_str_less_trans(a.drop_first(), b.drop_first(), c.drop_first());
    }
}

/// Number of trailing `/` characters of `s`.
pub open spec fn trailing_slashes(s: Seq<char>) -> int
    decreases s.len(),
{
    if s.len() == 0 || s.last() != '/' {
        0
    } else {
        1 + trailing_slashes(s.drop_last())
    }
}

pub proof fn lemma_trailing_slashes_bound(s: Seq<char>)
    ensures
        0 <= trailing_slashes(s) <= s.len(),
    decreases s.len(),
{
    if s.len() > 0 && s.last() == '/' {
        lemma_trailing_slashes_bound(s.drop_last());
    }
}

/// `s` without its trailing `/` characters (`str::trim_end_matches('/')`).
pub fn strip_trailing_slashes(url: &str) -> (u: &str)
    ensures
        u@ == url@.take(url@.len() - trailing_slashes(url@)),
{
    let n = url.unicode_len();
    let mut end = n;
    let ghost s = url@;
    assert(s.take(n as int) =~= s);
    while end > 0 && url.get_char(end - 1) == '/'
        invariant
            s == url@,
            n == s.len(),
            end <= n,
            s.take(s.len() - trailing_slashes(s)) == s.take(end as int).take(
                end - trailing_slashes(s.take(end as int)),
            ),
        decreases end,
    {
        proof {
            let t = s.take(end as int);
            assert(t.drop_last() == s.take(end - 1));
            assert(t.last() == '/');
            assert(trailing_slashes(t) == 1 + trailing_slashes(s.take(end - 1)));
            lemma_trailing_slashes_bound(s.take(end - 1));
            assert(t.take(end - trailing_slashes(t)) =~= s.take(end - 1).take(
                end - 1 - trailing_slashes(s.take(end - 1)),
            ));
        }
        end = end - 1;
    }
    proof {
        if end > 0 {
            assert(s.take(end as int).last() != '/');
        }
        assert(s.take(end as int).take(end as int) == s.take(end as int));
    }
    url.substring_char(0, end)
}

/// Equal-ignoring-case strings relate to a third one alike.
pub proof fn lemma_same_case_class(a: Seq<char>, b: Seq<char>, w: Seq<char>)
    requires
        eq_ignore_ascii_case(a, b),
    ensures
        eq_ignore_ascii_case(a, w) == eq_ignore_ascii_case(b, w),
{
    if eq_ignore_ascii_case(b, w) {
        assert forall|k: int| 0 <= k < a.len() implies #[trigger] ascii_lower(a[k]) == ascii_lower(w[k]) by {
            assert(ascii_lower(a[k]) == ascii_lower(b[k]));
            assert(ascii_lower(b[k]) == ascii_lower(w[k]));
        }
    }
    if eq_ignore_ascii_case(a, w) {
        assert forall|k: int| 0 <= k < b.len() implies #[trigger] ascii_lower(b[k]) == ascii_lower(w[k]) by {
            assert(ascii_lower(a[k]) == ascii_lower(b[k]));
            assert(ascii_lower(a[k]) == ascii_lower(w[k]));
        }
    }
}

/// ASCII lower-casing maps each capital `A`-`Z` to its small letter and
/// leaves every other character alone, so its results hold no capital and
/// applying it twice changes nothing more.
pub proof fn lemma_ascii_lower(c: char)
    ensures
        'A' <= c <= 'Z' ==> ascii_lower(c) as u32 == c as u32 + 32 && 'a' <= ascii_lower(c) <= 'z',
        !('A' <= c <= 'Z') ==> ascii_lower(c) == c,
        !('A' <= ascii_lower(c) <= 'Z'),
        ascii_lower(ascii_lower(c)) == ascii_lower(c),
{
}

/// Equality ignoring ASCII case is an equivalence: reflexive, symmetric
/// and transitive.
pub proof fn lemma_ignore_case_equivalence(a: Seq<char>, b: Seq<char>, c: Seq<char>)
    ensures
        eq_ignore_ascii_case(a, a),
        eq_ignore_ascii_case(a, b) ==> eq_ignore_ascii_case(b, a),
        eq_ignore_ascii_case(a, b) && eq_ignore_ascii_case(b, c) ==> eq_ignore_ascii_case(a, c),
{
    if eq_ignore_ascii_case(a, b) {
        lemma_same_case_class(a, b, c);
        assert forall|k: int| 0 <= k < b.len() implies #[trigger] ascii_lower(b[k]) == ascii_lower(a[k]) by {
            assert(ascii_lower(a[k]) == ascii_lower(b[k]));
        }
    }
}

/// Stripping trailing slashes removes exactly the final run of `/`: what
/// is left does not end in `/`, and everything removed is `/`.
pub proof fn lemma_trailing_slashes_run(s: Seq<char>)
    ensures
        ({
            let n = trailing_slashes(s);
            let kept = s.take(s.len() - n);
            &&& 0 <= n <= s.len()
            &&& kept.len() == 0 || kept.last() != '/'
            &&& forall|i: int| s.len() - n <= i < s.len() ==> #[trigger] s[i] == '/'
        }),
    decreases s.len(),
{
    lemma_trailing_slashes_bound(s);
    if s.len() > 0 && s.last() == '/' {
        let d = s.drop_last();
        lemma_trailing_slashes_run(d);
        let n = trailing_slashes(s);
        assert(s.take(s.len() - n) =~= d.take(d.len() - trailing_slashes(d)));
        assert forall|i: int| s.len() - n <= i < s.len() implies #[trigger] s[i] == '/' by {
            if i < s.len() - 1 {
                assert(s[i] == d[i]);
            }
        }
    } else {
        assert(s.take(s.len() as int) =~= s);
    }
}

} // verus!
