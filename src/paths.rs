use vstd::prelude::*;

verus! {

/// The last component of `path`, as `std::path::Path::file_name` gives it.
pub uninterp spec fn file_name_of(path: Seq<char>) -> Option<Seq<char>>;

/// Relies on `std::path::Path::file_name`; a name taken from a `&str` path
/// is valid UTF-8, so the conversion back to a string keeps it whole.
#[verifier::external_body]
pub(crate) fn file_name(path: &str) -> (r: Option<String>)
    ensures
        r is Some <==> file_name_of(path@) is Some,
        r matches Some(n) ==> file_name_of(path@) == Some(n@),
{
    std::path::Path::new(path).file_name().and_then(|n| n.to_str()).map(|n| n.to_string())
}

/// Whether `s` ends with `suffix`.
pub open spec fn ends_with(s: Seq<char>, suffix: Seq<char>) -> bool {
    suffix.len() <= s.len() && s.subrange(s.len() - suffix.len(), s.len() as int) == suffix
}

fn str_ends_with(s: &str, suffix: &str) -> (r: bool)
    ensures
        r == ends_with(s@, suffix@),
{
    let n = s.unicode_len();
    let m = suffix.unicode_len();
    if m > n {
        return false;
    }
    let off: usize = n - m;
    let mut i: usize = 0;
    while i < m
        invariant
            n == s@.len(),
            m == suffix@.len(),
            off + m == n,
            i <= m,
            forall|k: int| 0 <= k < i ==> s@[off + k] == suffix@[k],
        decreases m - i,
    {
        if s.get_char(off + i) != suffix.get_char(i) {
            assert(s@.subrange(off as int, n as int)[i as int] != suffix@[i as int]);
            return false;
        }
        i = i + 1;
    }
    assert(s@.subrange(off as int, n as int) =~= suffix@);
    true
}

/// Whether the file named by `entry` ends with one of `suffixes`.
/// A path without a file name (such as `/` or one ending in `..`) has none.
pub fn has_suffix(entry: &str, suffixes: &[&str]) -> (r: bool)
    ensures
        r == match file_name_of(entry@) {
            Some(n) => exists|k: int| 0 <= k < suffixes@.len() && ends_with(n, suffixes@[k]@),
            None => false,
        },
{
    let name = match file_name(entry) {
        Some(n) => n,
        None => return false,
    };
    let mut k: usize = 0;
    while k < suffixes.len()
        invariant
            k <= suffixes@.len(),
            file_name_of(entry@) == Some(name@),
            forall|j: int| 0 <= j < k ==> !ends_with(name@, suffixes@[j]@),
        decreases suffixes@.len() - k,
    {
        if str_ends_with(name.as_str(), suffixes[k]) {
            return true;
        }
        k = k + 1;
    }
    false
}

/// Whether a file or directory name marks a hidden entry (it starts with a dot).
pub open spec fn hidden_name(name: Seq<char>) -> bool {
    name.len() > 0 && name[0] == '.'
}

/// Whether `name` is hidden, that is starts with `.`.
pub fn is_hidden(name: &str) -> (r: bool)
    ensures
        r == hidden_name(name@),
{
    name.unicode_len() > 0 && name.get_char(0) == '.'
}

} // verus!
