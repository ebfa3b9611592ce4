//! What a stripped commit body can still show: no line of it is an identity
//! trailer.
//!
//! [`strip_trailers`](crate::eval::redact::strip_trailers) drops the trailer
//! lines, then rejoins and trims what is left. Rejoining cannot glue two
//! lines together (none holds a newline), and trimming only removes
//! whitespace at the two ends, so every line of the result is a piece of a
//! kept line that starts after that line's leading whitespace. Such a piece
//! names a trailer token only if the whole line does.

use vstd::prelude::*;
use crate::eval::redact::{
    first_index_of, identity_trailer, join_lines, kept_lines, lines_from, next_newline, strip_cr, stripped_body,
};
use crate::text::{
    eq_ignore_ascii_case, lead_ws, lemma_lead_ws_bounds, lemma_trail_ws_bounds, trim, trim_end, trim_start,
    unicode_white_space,
};

verus! {

/// Skipping a whitespace prefix of length `a` leaves the rest of the
/// leading whitespace.
proof fn lemma_lead_ws_skip(s: Seq<char>, a: int)
    requires
        0 <= a <= s.len(),
        forall|k: int| 0 <= k < a ==> unicode_white_space(#[trigger] s[k]),
    ensures
        lead_ws(s) == a + lead_ws(s.skip(a)),
    decreases a,
{
    if a == 0 {
        assert(s.skip(0) =~= s);
    } else {
        assert(unicode_white_space(s[0]));
        let t = s.drop_first();
        assert forall|k: int| 0 <= k < a - 1 implies unicode_white_space(#[trigger] t[k]) by {
            assert(t[k] == s[k + 1]);
        }
        lemma_lead_ws_skip(t, a - 1);
        assert(t.skip(a - 1) =~= s.skip(a));
    }
}

/// The leading whitespace of a prefix is cut at the prefix's end.
proof fn lemma_lead_ws_take(s: Seq<char>, n: int)
    requires
        0 <= n <= s.len(),
    ensures
        lead_ws(s.take(n)) == if lead_ws(s) <= n {
            lead_ws(s)
        } else {
            n
        },
    decreases n,
{
    lemma_lead_ws_bounds(s);
    if n > 0 && unicode_white_space(s[0]) {
        assert(s.take(n)[0] == s[0]);
        assert(s.take(n).drop_first() =~= s.drop_first().take(n - 1));
        lemma_lead_ws_take(s.drop_first(), n - 1);
        assert(lead_ws(s) == 1 + lead_ws(s.drop_first()));
        assert(lead_ws(s.take(n)) == 1 + lead_ws(s.take(n).drop_first()));
    } else if n > 0 {
        assert(s.take(n)[0] == s[0]);
        assert(lead_ws(s) == 0);
        assert(lead_ws(s.take(n)) == 0);
    } else {
        assert(lead_ws(s.take(n)) == 0);
    }
}

proof fn lemma_first_index_of_bounds(t: Seq<char>, c: char)
    ensures
        first_index_of(t, c) matches Some(k) ==> 0 <= k < t.len() && t[k] == c,
    decreases t.len(),
{
    if t.len() > 0 && t[0] != c {
        lemma_first_index_of_bounds(t.drop_first(), c);
    }
}

/// The first colon of a prefix is the first colon of the whole.
proof fn lemma_first_index_of_prefix(t: Seq<char>, n: int, c: char)
    requires
        0 <= n <= t.len(),
    ensures
        first_index_of(t.take(n), c) matches Some(k) ==> first_index_of(t, c) == Some(k) && k < n,
    decreases n,
{
    if n > 0 {
        assert(t.take(n)[0] == t[0]);
        if t[0] != c {
            assert(t.take(n).drop_first() =~= t.drop_first().take(n - 1));
            lemma_first_index_of_prefix(t.drop_first(), n - 1, c);
        }
    }
}

/// A piece of `line` that starts after some of its leading whitespace is an
/// identity trailer only if `line` is one.
proof fn lemma_piece_trailer(line: Seq<char>, a: int, b: int)
    requires
        0 <= a <= b <= line.len(),
        forall|k: int| 0 <= k < a ==> unicode_white_space(#[trigger] line[k]),
    ensures
        identity_trailer(line.subrange(a, b)) ==> identity_trailer(line),
{
    let r = line.subrange(a, b);
    let rest = line.skip(a);
    lemma_lead_ws_skip(line, a);
    lemma_lead_ws_bounds(rest);
    assert(r =~= rest.take(b - a));
    lemma_lead_ws_take(rest, b - a);
    let l = lead_ws(rest);
    if identity_trailer(r) {
        if l >= b - a {
            assert(trim_start(r) =~= Seq::<char>::empty());
        } else {
            let t = trim_start(line);
            assert(t =~= line.skip(a + l));
            assert(trim_start(r) =~= t.take(b - a - l));
            lemma_first_index_of_prefix(t, b - a - l, ':');
            let k = first_index_of(trim_start(r), ':')->0;
            lemma_first_index_of_bounds(trim_start(r), ':');
            assert(trim_start(r).take(k) =~= t.take(k));
        }
    }
}

/// `l` holds no newline.
pub open spec fn single_line(l: Seq<char>) -> bool {
    forall|k: int| 0 <= k < l.len() ==> l[k] != '\n'
}

proof fn lemma_next_newline_props(s: Seq<char>, i: int)
    requires
        0 <= i <= s.len(),
    ensures
        i <= next_newline(s, i) <= s.len(),
        forall|k: int| i <= k < next_newline(s, i) ==> s[k] != '\n',
        next_newline(s, i) < s.len() ==> s[next_newline(s, i)] == '\n',
    decreases s.len() - i,
{
    if i < s.len() && s[i] != '\n' {
        lemma_next_newline_props(s, i + 1);
    }
}

/// Each line of `t` from `start` is a stretch `t[u..e]` that begins at
/// `start` or right after a newline, and ends at or before the next newline.
proof fn lemma_line_start(t: Seq<char>, start: int, i: int) -> (ue: (int, int))
    requires
        0 <= start,
        0 <= i < lines_from(t, start).len(),
    ensures
        start <= ue.0 < t.len(),
        ue.0 == start || t[ue.0 - 1] == '\n',
        ue.0 <= ue.1 <= next_newline(t, ue.0),
        next_newline(t, ue.0) <= t.len(),
        lines_from(t, start)[i] == t.subrange(ue.0, ue.1),
    decreases t.len() - start,
{
    let k = next_newline(t, start);
    lemma_next_newline_props(t, start);
    if k >= t.len() {
        (start, t.len() as int)
    } else if i == 0 {
        let x = t.subrange(start, k);
        if x.len() > 0 && x.last() == '\r' {
            assert(strip_cr(x) =~= t.subrange(start, k - 1));
            (start, k - 1)
        } else {
            (start, k)
        }
    } else {
        assert(lines_from(t, start) == seq![strip_cr(t.subrange(start, k))] + lines_from(t, k + 1));
        assert(lines_from(t, start)[i] == lines_from(t, k + 1)[i - 1]);
        lemma_line_start(t, k + 1, i - 1)
    }
}

/// Every line of `s` is a single line.
proof fn lemma_lines_single(s: Seq<char>)
    ensures
        forall|i: int| 0 <= i < lines_from(s, 0).len() ==> single_line(#[trigger] lines_from(s, 0)[i]),
{
    assert forall|i: int| 0 <= i < lines_from(s, 0).len() implies single_line(#[trigger] lines_from(s, 0)[i]) by {
        let (u, e) = lemma_line_start(s, 0, i);
        lemma_next_newline_props(s, u);
        assert forall|k: int| 0 <= k < lines_from(s, 0)[i].len() implies lines_from(s, 0)[i][k] != '\n' by {
            assert(lines_from(s, 0)[i][k] == s[u + k]);
        }
    }
}

/// The kept lines are single lines that are not identity trailers.
proof fn lemma_kept_lines(ls: Seq<Seq<char>>)
    requires
        forall|i: int| 0 <= i < ls.len() ==> single_line(#[trigger] ls[i]),
    ensures
        forall|i: int|
            0 <= i < kept_lines(ls).len() ==> single_line(#[trigger] kept_lines(ls)[i]) && !identity_trailer(
                kept_lines(ls)[i],
            ),
    decreases ls.len(),
{
    if ls.len() > 0 {
        let rest = ls.drop_first();
        assert forall|i: int| 0 <= i < rest.len() implies single_line(#[trigger] rest[i]) by {
            assert(rest[i] == ls[i + 1]);
        }
        lemma_kept_lines(rest);
        if !identity_trailer(ls[0]) {
            assert forall|i: int| 0 <= i < kept_lines(ls).len() implies single_line(
                #[trigger] kept_lines(ls)[i],
            ) && !identity_trailer(kept_lines(ls)[i]) by {
                if i > 0 {
                    assert(kept_lines(ls)[i] == kept_lines(rest)[i - 1]);
                } else {
                    assert(kept_lines(ls)[0] == ls[0]);
                }
            }
        } else {
            assert(kept_lines(ls) == kept_lines(rest));
        }
    }
}

/// A position of the joined text that is not a separator lies inside one
/// of the lines: `ls[j]` occupies `[s, s + ls[j].len())`, a newline or the
/// end follows it, and a newline or the start precedes it.
proof fn lemma_join_locate(ls: Seq<Seq<char>>, x: int) -> (js: (int, int))
    requires
        forall|i: int| 0 <= i < ls.len() ==> single_line(#[trigger] ls[i]),
        0 <= x < join_lines(ls).len(),
        join_lines(ls)[x] != '\n',
    ensures
        0 <= js.0 < ls.len(),
        0 <= js.1 <= x < js.1 + ls[js.0].len(),
        js.1 + ls[js.0].len() <= join_lines(ls).len(),
        forall|o: int| 0 <= o < ls[js.0].len() ==> join_lines(ls)[js.1 + o] == #[trigger] ls[js.0][o],
        js.1 + ls[js.0].len() < join_lines(ls).len() ==> join_lines(ls)[js.1 + ls[js.0].len()] == '\n',
    decreases ls.len(),
{
    if ls.len() == 1 {
        (0, 0)
    } else {
        let front = ls.drop_last();
        let jf = join_lines(front);
        let j = join_lines(ls);
        assert(j == jf + seq!['\n'] + ls.last());
        assert forall|i: int| 0 <= i < front.len() implies single_line(#[trigger] front[i]) by {
            assert(front[i] == ls[i]);
        }
        if x < jf.len() {
            assert(jf[x] == j[x]);
            let (jj, ss) = lemma_join_locate(front, x);
            assert(front[jj] == ls[jj]);
            assert forall|o: int| 0 <= o < ls[jj].len() implies j[ss + o] == #[trigger] ls[jj][o] by {
                assert(j[ss + o] == jf[ss + o]);
                assert(front[jj][o] == jf[ss + o]);
            }
            if ss + ls[jj].len() < jf.len() {
                assert(j[ss + ls[jj].len()] == jf[ss + ls[jj].len()]);
            }
            (jj, ss)
        } else {
            assert(x != jf.len());
            let ss: int = jf.len() as int + 1;
            assert forall|o: int| 0 <= o < ls[ls.len() - 1].len() implies j[ss + o] == #[trigger] ls[ls.len()
                - 1][o] by {
                assert(j[ss + o] == ls.last()[o]);
            }
            (ls.len() - 1, ss)
        }
    }
}

/// No line of a stripped commit body is an identity trailer: whatever the
/// body, the text `strip_trailers` leaves for the rater sheet names no one
/// through a `Co-authored-by:`, `Signed-off-by:`, `Cc:` or other identity
/// trailer line.
pub proof fn lemma_stripped_body_has_no_identity_trailer(body: Seq<char>)
    ensures
        forall|i: int|
            0 <= i < lines_from(stripped_body(body), 0).len() ==> !identity_trailer(
                #[trigger] lines_from(stripped_body(body), 0)[i],
            ),
{
    let all = lines_from(body, 0);
    let ls = kept_lines(all);
    lemma_lines_single(body);
    lemma_kept_lines(all);
    let joined = join_lines(ls);
    let p = lead_ws(joined);
    lemma_lead_ws_bounds(joined);
    let ts = trim_start(joined);
    lemma_trail_ws_bounds(ts);
    let t = trim(joined);
    assert(t == stripped_body(body));
    assert(t.len() + p <= joined.len());
    assert forall|k: int| 0 <= k < t.len() implies t[k] == #[trigger] joined[p + k] by {
        assert(t[k] == ts[k]);
    }
    assert forall|i: int| 0 <= i < lines_from(t, 0).len() implies !identity_trailer(
        #[trigger] lines_from(t, 0)[i],
    ) by {
        let r = lines_from(t, 0)[i];
        let (u, e) = lemma_line_start(t, 0, i);
        lemma_next_newline_props(t, u);
        if e == u {
            assert(r =~= Seq::<char>::empty());
            assert(lead_ws(r) == 0);
            assert(trim_start(r) =~= Seq::<char>::empty());
        } else {
            let x = p + u;
            assert(t[u] != '\n');
            assert(joined[x] == t[u]);
            let (j, s0) = lemma_join_locate(ls, x);
            let l = ls[j];
            let o = x - s0;
            if p + e > s0 + l.len() {
                let k = s0 + l.len() - p;
                assert(joined[s0 + l.len()] == '\n');
                assert(t[k] == joined[p + k]);
                assert(u <= k < e);
                assert(false);
            }
            assert forall|q: int| 0 <= q < e - u implies r[q] == #[trigger] l[o + q] by {
                assert(r[q] == t[u + q]);
                assert(t[u + q] == joined[p + u + q]);
                assert(joined[s0 + (o + q)] == l[o + q]);
            }
            assert(r =~= l.subrange(o, o + e - u));
            if u > 0 {
                if o > 0 {
                    assert(t[u - 1] == joined[x - 1]);
                    assert(joined[s0 + (o - 1)] == l[o - 1]);
                    assert(single_line(l));
                    assert(false);
                }
            } else {
                assert forall|k: int| 0 <= k < o implies unicode_white_space(#[trigger] l[k]) by {
                    assert(joined[s0 + k] == l[k]);
                }
            }
            lemma_piece_trailer(l, o, o + e - u);
        }
    }
}

/// The token of a `Token: value` line names a person: one of the eight
/// trailer tokens, in any ASCII case.
pub open spec fn names_a_person(t: Seq<char>) -> bool {
    eq_ignore_ascii_case(t, "co-authored-by"@) || eq_ignore_ascii_case(t, "signed-off-by"@)
        || eq_ignore_ascii_case(t, "reviewed-by"@) || eq_ignore_ascii_case(t, "acked-by"@)
        || eq_ignore_ascii_case(t, "reported-by"@) || eq_ignore_ascii_case(t, "tested-by"@)
        || eq_ignore_ascii_case(t, "helped-by"@) || eq_ignore_ascii_case(t, "cc"@)
}

/// No line of the stripped body is a trailer naming a person: whatever the
/// body, each remaining line's token before its first `:` (surrounding
/// whitespace trimmed) is none of the eight person-naming tokens.
pub proof fn lemma_no_person_trailer_survives(body: Seq<char>)
    ensures
        forall|i: int|
            0 <= i < lines_from(stripped_body(body), 0).len() ==> (first_index_of(
                trim_start(#[trigger] lines_from(stripped_body(body), 0)[i]),
                ':',
            ) matches Some(k) ==> !names_a_person(
                trim_end(trim_start(lines_from(stripped_body(body), 0)[i]).take(k)),
            )),
{
    lemma_stripped_body_has_no_identity_trailer(body);
    let ls = lines_from(stripped_body(body), 0);
    assert forall|i: int| 0 <= i < ls.len() implies (first_index_of(trim_start(#[trigger] ls[i]), ':') matches Some(
        k,
    ) ==> !names_a_person(trim_end(trim_start(ls[i]).take(k)))) by {
        assert(!identity_trailer(ls[i]));
        match first_index_of(trim_start(ls[i]), ':') {
            Some(k) => {
                crate::eval::redact::lemma_identity_tokens(trim_end(trim_start(ls[i]).take(k)));
            },
            None => {},
        }
    }
}

} // verus!
