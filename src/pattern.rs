use vstd::prelude::*;

verus! {

#[verifier::external_type_specification]
#[verifier::external_body]
pub struct ExRegex(regex::Regex);

#[verifier::external_type_specification]
#[verifier::external_body]
pub struct ExRegexError(regex::Error);

/// Whether the `regex` crate accepts `pattern` (syntax and size limits).
pub uninterp spec fn regex_compiles(pattern: Seq<char>) -> bool;

/// Whether the regular expression `pattern` matches anywhere in `text`.
pub uninterp spec fn regex_is_match(pattern: Seq<char>, text: Seq<char>) -> bool;

/// The text of the first and second capture groups of the leftmost-first
/// match of `pattern` in `text`, each `None` where the group did not take part.
pub uninterp spec fn regex_groups(pattern: Seq<char>, text: Seq<char>) -> (
    Option<Seq<char>>,
    Option<Seq<char>>,
);

/// The view of an optional string.
pub open spec fn opt_view(s: Option<String>) -> Option<Seq<char>> {
    match s {
        Some(t) => Some(t@),
        None => None,
    }
}

/// The text of a capture group, empty where the group did not take part.
pub open spec fn group_text(g: Option<Seq<char>>) -> Seq<char> {
    match g {
        Some(t) => t,
        None => Seq::empty(),
    }
}

/// The base identity of `text` under `pattern`: what comes before the token
/// followed by what comes after it.
pub open spec fn identity_of(pattern: Seq<char>, text: Seq<char>) -> Seq<char> {
    group_text(regex_groups(pattern, text).0) + group_text(regex_groups(pattern, text).1)
}

/// Joins the text before and after the token into a base identity.
pub fn join_groups(before: &Option<String>, after: &Option<String>) -> (r: String)
    ensures
        r@ == group_text(opt_view(*before)) + group_text(opt_view(*after)),
{
    let mut out = String::new();
    match before {
        Some(b) => out.append(b.as_str()),
        None => {},
    }
    match after {
        Some(a) => out.append(a.as_str()),
        None => {},
    }
    out
}

/// A compiled mate pattern together with the source text it was compiled from.
///
/// Values are only made by `compile` (and copied by `duplicate`), so `re` is
/// always the compilation of `source`.
pub struct MatePattern {
    source: String,
    re: regex::Regex,
}

impl View for MatePattern {
    type V = Seq<char>;

    closed spec fn view(&self) -> Seq<char> {
        self.source@
    }
}

impl MatePattern {
    /// Relies on `regex::Regex::new`: it succeeds exactly on the patterns it
    /// accepts, which depends on the pattern text alone.
    #[verifier::external_body]
    pub(crate) fn compile(source: String) -> (r: Result<MatePattern, regex::Error>)
        ensures
            r is Ok <==> regex_compiles(source@),
            r matches Ok(p) ==> p@ == source@,
    {
        regex::Regex::new(&source).map(|re| MatePattern { source, re })
    }

    /// Relies on `Clone` of `regex::Regex`: the copy is the same compiled pattern.
    #[verifier::external_body]
    pub(crate) fn duplicate(&self) -> (r: MatePattern)
        ensures
            r@ == self@,
    {
        MatePattern { source: self.source.clone(), re: self.re.clone() }
    }

    /// Relies on `regex::Regex::is_match`: true iff the pattern matches
    /// somewhere in `text`.
    #[verifier::external_body]
    pub(crate) fn is_match(&self, text: &str) -> (r: bool)
        ensures
            r == regex_is_match(self@, text@),
    {
        self.re.is_match(text)
    }

    /// Relies on `regex::Regex::captures` and `Captures::get`: `None`
    /// exactly when there is no match (as for `is_match`); otherwise the text
    /// of groups one and two of the leftmost-first match, each `None` where
    /// the group did not take part.
    #[verifier::external_body]
    pub(crate) fn capture_groups(&self, text: &str) -> (r: Option<(Option<String>, Option<String>)>)
        ensures
            r is Some <==> regex_is_match(self@, text@),
            r matches Some((a, b)) ==> regex_groups(self@, text@) == (opt_view(a), opt_view(b)),
    {
        self.re.captures(text).map(
            |c| (c.get(1).map(|m| m.as_str().to_string()), c.get(2).map(|m| m.as_str().to_string())),
        )
    }

    /// The source text of the pattern.
    pub fn source(&self) -> (r: &String)
        ensures
            r@ == self@,
    {
        &self.source
    }
}

} // verus!
