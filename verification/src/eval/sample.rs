//! What a rater sees of a sampled commit: salted author hashes and bounded
//! excerpts.

use vstd::prelude::*;
use vstd::utf8::encode_utf8;
use crate::digest::{blake3_digest, blake3_hash};
use crate::eval::draw::push_str_bytes;
use crate::text::{chars_of, join_with, string_from_chars, to_lowercase, trim, trim_chars, unicode_lowercase};
use crate::eval::order::{sort_by_key, sort_by_keys};

verus! {

/// Characters of the message body shown to raters.
pub const BODY_EXCERPT: usize = 600;

/// Paths shown to raters.
pub const PATHS_EXCERPT: usize = 8;

/// What a sampling run wrote.
#[derive(Clone, Debug)]
pub struct SampleSummary {
    /// Contents of `strata.json`.
    pub strata: crate::eval::records::StrataSummary,
    /// Files written.
    pub files: Vec<std::path::PathBuf>,
    /// Path of the generated salt file, when the salt was generated.
    pub salt_file: Option<std::path::PathBuf>,
    /// Rule-engine commits whose stored category differs from today's rules.
    pub drifted: u64,
    /// Commits skipped for an unparseable timestamp.
    pub bad_timestamps: u64,
}

/// Lower-case hexadecimal digit of `d < 16`.
pub open spec fn lower_hex_digit(d: u8) -> char {
    if d < 10 {
        ((48 + d) as u8) as char
    } else {
        ((87 + d) as u8) as char
    }
}

/// Lower-case hexadecimal rendering of `bytes`, two digits per byte, high
/// nibble first.
pub open spec fn lower_hex(bytes: Seq<u8>) -> Seq<char>
    decreases bytes.len(),
{
    if bytes.len() == 0 {
        Seq::empty()
    } else {
        lower_hex(bytes.drop_last()) + seq![
            lower_hex_digit(bytes.last() / 16),
            lower_hex_digit(bytes.last() % 16),
        ]
    }
}

pub(crate) fn hex_char(d: u8) -> (c: char)
    requires
        d < 16,
    ensures
        c == lower_hex_digit(d),
{
    if d < 10 {
        (48 + d) as char
    } else {
        (87 + d) as char
    }
}

/// The bytes hashed for an author: the salt, a zero byte, then the
/// trimmed, lower-cased e-mail.
pub open spec fn author_material(salt: Seq<char>, email: Seq<char>) -> Seq<u8> {
    encode_utf8(salt) + seq![0u8] + encode_utf8(unicode_lowercase(trim(email)))
}

/// An author's pseudonym: the first 16 hex digits of the BLAKE3 digest of
/// the author material.
pub open spec fn author_hash_of(salt: Seq<char>, email: Seq<char>) -> Seq<char> {
    lower_hex(blake3_digest(author_material(salt, email)).take(8))
}

/// Salted pseudonym of an author e-mail (case and surrounding whitespace
/// ignored), shown to raters in place of the address.
pub fn author_hash(salt: &str, email: &str) -> (h: String)
    ensures
        h@ == author_hash_of(salt@, email@),
{
    let mut data: Vec<u8> = Vec::new();
    push_str_bytes(&mut data, salt);
    data.push(0u8);
    let e = chars_of(email);
    let trimmed = trim_chars(e.as_slice());
    let ts = string_from_chars(trimmed.as_slice());
    let lower = to_lowercase(ts.as_str());
    push_str_bytes(&mut data, lower.as_str());
    proof {
        assert(data@ =~= author_material(salt@, email@));
    }
    let digest = blake3_hash(data.as_slice());
    let mut out: Vec<char> = Vec::new();
    let mut i: usize = 0;
    while i < 8
        invariant
            i <= 8,
            digest@.len() == 32,
            out@ == lower_hex(digest@.take(i as int)),
        decreases 8 - i,
    {
        proof {
            assert(digest@.take(i as int + 1).drop_last() =~= digest@.take(i as int));
        }
        let b = digest[i];
        out.push(hex_char(b / 16));
        out.push(hex_char(b % 16));
        proof {
            assert(out@ =~= lower_hex(digest@.take(i as int + 1)));
        }
        i = i + 1;
    }
    string_from_chars(out.as_slice())
}

/// The first `max` characters of `s`, with an ellipsis when more follow.
pub open spec fn excerpt_of(s: Seq<char>, max: nat) -> Seq<char> {
    if s.len() > max {
        s.take(max as int).push('…')
    } else {
        s
    }
}

/// At most `max` characters of `s`, marked with `…` when cut.
pub fn excerpt(s: &str, max: usize) -> (r: String)
    ensures
        r@ == excerpt_of(s@, max as nat),
{
    let chars = chars_of(s);
    let mut out: Vec<char> = Vec::new();
    let mut i: usize = 0;
    while i < max && i < chars.len()
        invariant
            i <= max,
            i <= chars.len(),
            chars@ == s@,
            out@ == s@.take(i as int),
        decreases chars.len() - i,
    {
        proof {
            assert(s@.take(i as int + 1) =~= s@.take(i as int).push(s@[i as int]));
        }
        out.push(chars[i]);
        i = i + 1;
    }
    if chars.len() > max {
        out.push('…');
    } else {
        assert(s@.take(i as int) =~= s@);
    }
    string_from_chars(out.as_slice())
}


/// Decimal digits of `n`.
pub open spec fn decimal(n: nat) -> Seq<char>
    decreases n,
{
    if n < 10 {
        seq![((48 + n) as u8) as char]
    } else {
        decimal(n / 10).push(((48 + n % 10) as u8) as char)
    }
}

fn push_decimal(out: &mut Vec<char>, n: usize)
    ensures
        final(out)@ == old(out)@ + decimal(n as nat),
    decreases n,
{
    if n >= 10 {
        push_decimal(out, n / 10);
    }
    let d = (n % 10) as u8;
    out.push((48 + d) as char);
}

/// The paths cell of the rater sheet: the first [`PATHS_EXCERPT`] paths
/// joined by `"; "`, then `"; (+N more)"` when `N` more were left out.
pub open spec fn paths_cell(paths: Seq<Seq<char>>) -> Seq<char> {
    let shown = join_with(paths.take(if paths.len() > 8 { 8 } else { paths.len() as int }), "; "@);
    if paths.len() > 8 {
        shown + "; (+"@ + decimal((paths.len() - 8) as nat) + " more)"@
    } else {
        shown
    }
}

/// The paths cell of the rater sheet (see [`paths_cell`]).
pub fn paths_excerpt(paths: &[String]) -> (r: String)
    ensures
        r@ == paths_cell(Seq::new(paths@.len(), |i: int| paths@[i]@)),
{
    let ghost ps = Seq::new(paths@.len(), |i: int| paths@[i]@);
    let shown_n: usize = if paths.len() > PATHS_EXCERPT { PATHS_EXCERPT } else { paths.len() };
    let mut out: Vec<char> = Vec::new();
    let mut i: usize = 0;
    while i < shown_n
        invariant
            i <= shown_n <= paths@.len(),
            shown_n == if paths@.len() > 8 { 8 } else { paths@.len() },
            ps == Seq::new(paths@.len(), |i: int| paths@[i]@),
            out@ == join_with(ps.take(i as int), "; "@),
        decreases shown_n - i,
    {
        proof {
            assert(ps.take(i as int + 1).drop_last() =~= ps.take(i as int));
        }
        if i > 0 {
            let mut sep = chars_of("; ");
            out.append(&mut sep);
        }
        let mut p = chars_of(paths[i].as_str());
        out.append(&mut p);
        proof {
            if i == 0 {
                assert(out@ =~= join_with(ps.take(1), "; "@));
            } else {
                assert(out@ =~= join_with(ps.take(i as int + 1), "; "@));
            }
        }
        i = i + 1;
    }
    if paths.len() > PATHS_EXCERPT {
        let mut more = chars_of("; (+");
        out.append(&mut more);
        push_decimal(&mut out, paths.len() - PATHS_EXCERPT);
        let mut tail = chars_of(" more)");
        out.append(&mut tail);
    }
    string_from_chars(out.as_slice())
}

/// Sort key of a row on the rater sheet: the hex BLAKE3 digest of the
/// salt, a NUL character and the SHA.
pub open spec fn sheet_key(salt: Seq<char>, sha: Seq<char>) -> Seq<char> {
    lower_hex(blake3_digest(encode_utf8(salt + seq!['\0'] + sha)))
}

/// The order of the rows on the rater sheet: by the salted hash of their
/// SHA (a stable sort), so the stratum cannot be read off the row order.
pub fn sheet_order(salt: &str, shas: &[String]) -> (order: Vec<usize>)
    ensures
        order@ == sort_by_key(
            Seq::new(shas@.len(), |i: int| sheet_key(salt@, shas@[i]@)),
            Seq::new(shas@.len(), |i: int| i as usize),
        ),
{
    let ghost keys = Seq::new(shas@.len(), |i: int| sheet_key(salt@, shas@[i]@));
    let mut key_chars: Vec<Vec<char>> = Vec::new();
    let mut idx: Vec<usize> = Vec::new();
    let mut i: usize = 0;
    while i < shas.len()
        invariant
            i <= shas@.len(),
            keys == Seq::new(shas@.len(), |i: int| sheet_key(salt@, shas@[i]@)),
            key_chars@.len() == i,
            idx@ == Seq::new(i as nat, |k: int| k as usize),
            forall|k: int| 0 <= k < i ==> #[trigger] key_chars@[k]@ == keys[k],
        decreases shas@.len() - i,
    {
        let mut material = chars_of(salt);
        material.push('\0');
        let mut sha = chars_of(shas[i].as_str());
        material.append(&mut sha);
        assert(material@ =~= salt@ + seq!['\0'] + shas@[i as int]@);
        let text = string_from_chars(material.as_slice());
        let mut data: Vec<u8> = Vec::new();
        push_str_bytes(&mut data, text.as_str());
        let hex = crate::eval::repredict::content_hash(data.as_slice());
        assert(data@ =~= encode_utf8(salt@ + seq!['\0'] + shas@[i as int]@));
        key_chars.push(chars_of(hex.as_str()));
        idx.push(i);
        proof {
            assert(idx@ =~= Seq::new(i as nat + 1, |k: int| k as usize));
        }
        i = i + 1;
    }
    sort_by_keys(&key_chars, Ghost(keys), &idx)
}

/// Hex rendering writes two digits per byte, each `0`-`9` or `a`-`f`, and
/// the digits of a byte give back its value (high nibble first).
pub proof fn lemma_lower_hex_digits(bytes: Seq<u8>)
    ensures
        lower_hex(bytes).len() == 2 * bytes.len(),
        forall|i: int|
            0 <= i < lower_hex(bytes).len() ==> ('0' <= #[trigger] lower_hex(bytes)[i] <= '9') || ('a'
                <= lower_hex(bytes)[i] <= 'f'),
        forall|k: int|
            0 <= k < bytes.len() ==> hex_value(#[trigger] lower_hex(bytes)[2 * k]) * 16 + hex_value(
                lower_hex(bytes)[2 * k + 1],
            ) == bytes[k],
    decreases bytes.len(),
{
    if bytes.len() > 0 {
        let d = bytes.drop_last();
        lemma_lower_hex_digits(d);
        let h = lower_hex(bytes);
        let hd = lower_hex(d);
        let b = bytes.last();
        assert(h == hd + seq![lower_hex_digit(b / 16), lower_hex_digit(b % 16)]);
        assert forall|i: int| 0 <= i < h.len() implies ('0' <= #[trigger] h[i] <= '9') || ('a' <= h[i] <= 'f') by {
            if i < hd.len() {
                assert(h[i] == hd[i]);
            }
        }
        assert forall|k: int| 0 <= k < bytes.len() implies hex_value(#[trigger] h[2 * k]) * 16 + hex_value(
            h[2 * k + 1],
        ) == bytes[k] by {
            if k < d.len() {
                assert(h[2 * k] == hd[2 * k]);
                assert(h[2 * k + 1] == hd[2 * k + 1]);
                assert(bytes[k] == d[k]);
            }
        }
    }
}

/// The value of a lower-case hex digit.
pub open spec fn hex_value(c: char) -> int {
    if '0' <= c <= '9' {
        c as int - '0' as int
    } else {
        c as int - 'a' as int + 10
    }
}

/// An author's pseudonym ignores surrounding whitespace and letter case of
/// the e-mail: two e-mails that agree once trimmed and lower-cased get the
/// same pseudonym under the same salt.
pub proof fn lemma_pseudonym_ignores_case_and_padding(salt: Seq<char>, e1: Seq<char>, e2: Seq<char>)
    requires
        unicode_lowercase(trim(e1)) == unicode_lowercase(trim(e2)),
    ensures
        author_hash_of(salt, e1) == author_hash_of(salt, e2),
{
}

/// An excerpt keeps `s` whole when it fits in `max` characters; otherwise
/// it is the first `max` characters followed by `…`.
pub proof fn lemma_excerpt_cut(s: Seq<char>, max: nat)
    ensures
        s.len() <= max ==> excerpt_of(s, max) == s,
        s.len() > max ==> excerpt_of(s, max).len() == max + 1 && excerpt_of(s, max).last() == '…' && forall|
            i: int,
        | 0 <= i < max ==> #[trigger] excerpt_of(s, max)[i] == s[i],
{
}

} // verus!
