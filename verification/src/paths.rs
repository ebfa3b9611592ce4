//! Filesystem paths: the ones carried through the library's parameter
//! records, and the text rule for a file name's extension.

use vstd::prelude::*;

verus! {

/// `std::path::PathBuf`, carried opaque: the library reads no path.
#[verifier::external_type_specification]
#[verifier::external_body]
pub struct ExPathBuf(std::path::PathBuf);

/// Position of the last `c` in `s`, or -1.
pub open spec fn last_index(s: Seq<char>, c: char) -> int
    decreases s.len(),
{
    if s.len() == 0 {
        -1
    } else if s.last() == c {
        s.len() - 1
    } else {
        last_index(s.drop_last(), c)
    }
}

/// The text after the last `/`.
pub open spec fn base_name(p: Seq<char>) -> Seq<char> {
    p.subrange(last_index(p, '/') + 1, p.len() as int)
}

/// Length of a file name's stem: the name up to its last dot, unless that
/// dot is the first character or there is none.
pub open spec fn stem_len(n: Seq<char>) -> int {
    if last_index(n, '.') > 0 {
        last_index(n, '.')
    } else {
        n.len() as int
    }
}

/// A path whose file name reads the same on every platform: no `\\` and no
/// `:` anywhere, and a last `/`-part that is a name (not empty, `.` or `..`).
pub open spec fn portable_path(p: Seq<char>) -> bool {
    &&& !p.contains('\\')
    &&& !p.contains(':')
    &&& base_name(p).len() > 0
    &&& base_name(p) != seq!['.']
    &&& base_name(p) != seq!['.', '.']
}

/// `p` with its file name's extension replaced by `ext` (or `.ext` added
/// where the name has none); everything before the stem is kept.
pub open spec fn replaced_extension(p: Seq<char>, ext: Seq<char>) -> Seq<char> {
    p.subrange(0, last_index(p, '/') + 1 + stem_len(base_name(p))) + seq!['.'] + ext
}

/// `Path::new(path).with_extension(ext)`, as text (UTF-8 in, UTF-8 out, so
/// the lossy conversion keeps every character). `with_extension` panics on
/// an extension holding a path separator, which `requires` leaves out. On a
/// portable path and a non-empty extension the documented rule is stated;
/// other paths (a `\\` or `:`, which Windows reads as separators or
/// prefixes, or a name of `.`/`..`) are left unstated.
#[verifier::external_body]
pub(crate) fn with_extension_text(path: &str, ext: &str) -> (r: String)
    requires
        !ext@.contains('/'),
        !ext@.contains('\\'),
    ensures
        portable_path(path@) && ext@.len() > 0 ==> r@ == replaced_extension(path@, ext@),
{
    std::path::Path::new(path).with_extension(ext).to_string_lossy().into_owned()
}

} // verus!
