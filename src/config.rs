use vstd::prelude::*;
use crate::error::{PairError, PairFault};
use crate::pattern::{regex_compiles, MatePattern};

verus! {

/// What a run is asked to do.
pub struct ArgParser {
    /// Root folder to scan.
    pub name: String,
    /// Scan the folder and all of its descendants.
    pub recursive: bool,
    /// Look for gzipped files instead of plain ones.
    pub gzipped: bool,
    /// Emit each first mate followed by its second mate.
    pub interleave: bool,
    /// Token of first mates.
    pub prefix_1: Option<String>,
    /// Token of second mates.
    pub prefix_2: Option<String>,
    /// Token shared by both mates.
    pub prefix_paired: Option<String>,
    /// Emit absolute paths.
    pub absolute: bool,
}

/// The pattern source built around a token: a lazy group before it, so that
/// the first occurrence is taken, and a group for the rest of the name.
pub open spec fn around_token(token: Seq<char>) -> Seq<char> {
    "(.*?)"@ + token + "(.*)"@
}

/// The first mate pattern used when no prefix is configured.
pub open spec fn default_first() -> Seq<char> {
    "(.*?)R1(.*)"@
}

/// The second mate pattern used when no prefix is configured.
pub open spec fn default_second() -> Seq<char> {
    "(.*?)R2(.*)"@
}

/// The sources of the two mate patterns that the prefix options ask for, or
/// the configuration error that they make.
pub open spec fn planned_sources(c: ArgParser) -> Result<(Seq<char>, Seq<char>), PairFault> {
    match c.prefix_paired {
        Some(x) => if c.prefix_1 is Some || c.prefix_2 is Some {
            Err(PairFault::ConflictingPrefixes)
        } else {
            Ok((around_token(x@), around_token(x@)))
        },
        None => match (c.prefix_1, c.prefix_2) {
            (Some(a), Some(b)) => Ok((around_token(a@), around_token(b@))),
            (None, None) => Ok((default_first(), default_second())),
            _ => Err(PairFault::PartialPrefixes),
        },
    }
}

/// The pattern sources of a run, once each has been compiled (first, then second).
pub open spec fn inferred_sources(c: ArgParser) -> Result<(Seq<char>, Seq<char>), PairFault> {
    match planned_sources(c) {
        Err(e) => Err(e),
        Ok((a, b)) => if !regex_compiles(a) {
            Err(PairFault::InvalidPattern { pattern: a })
        } else if !regex_compiles(b) {
            Err(PairFault::InvalidPattern { pattern: b })
        } else {
            Ok((a, b))
        },
    }
}

fn token_pattern(token: &String) -> (r: String)
    ensures
        r@ == around_token(token@),
{
    let mut s = String::from_str("(.*?)");
    s.append(token.as_str());
    s.append("(.*)");
    s
}

fn compile_source(source: String) -> (r: Result<MatePattern, PairError>)
    ensures
        match r {
            Ok(p) => regex_compiles(source@) && p@ == source@,
            Err(e) => !regex_compiles(source@) && e@ == (PairFault::InvalidPattern { pattern: source@ }),
        },
{
    let keep = source.clone();
    match MatePattern::compile(source) {
        Ok(p) => Ok(p),
        Err(_) => Err(PairError::InvalidPattern { pattern: keep }),
    }
}

/// Derives the first and second mate patterns from the prefix options.
pub fn infer_prefixes(argref: &ArgParser) -> (r: Result<(MatePattern, MatePattern), PairError>)
    ensures
        match r {
            Ok((p, q)) => inferred_sources(*argref) == Ok::<(Seq<char>, Seq<char>), PairFault>((p@, q@)),
            Err(e) => inferred_sources(*argref) == Err::<(Seq<char>, Seq<char>), PairFault>(e@),
        },
{
    match &argref.prefix_paired {
        Some(x) => {
            if argref.prefix_1.is_some() || argref.prefix_2.is_some() {
                return Err(PairError::ConflictingPrefixes);
            }
            let common = compile_source(token_pattern(x))?;
            let other = common.duplicate();
            Ok((common, other))
        },
        None => {
            match (&argref.prefix_1, &argref.prefix_2) {
                (Some(a), Some(b)) => {
                    let first = compile_source(token_pattern(a))?;
                    let second = compile_source(token_pattern(b))?;
                    Ok((first, second))
                },
                (None, None) => {
                    let first = compile_source(String::from_str("(.*?)R1(.*)"))?;
                    let second = compile_source(String::from_str("(.*?)R2(.*)"))?;
                    Ok((first, second))
                },
                _ => Err(PairError::PartialPrefixes),
            }
        },
    }
}

/// Shared and individual prefixes never mix: when the options yield two
/// patterns, either a shared token was given, no individual one was, and both
/// patterns are built from the shared token; or no shared token was given and
/// both patterns come from the two individual tokens or from the defaults.
pub proof fn lemma_prefix_kinds_exclusive(c: ArgParser)
    ensures
        inferred_sources(c) is Ok ==> planned_sources(c) == inferred_sources(c),
        planned_sources(c) matches Ok((a, b)) ==> match c.prefix_paired {
            Some(x) => {
                &&& c.prefix_1 is None
                &&& c.prefix_2 is None
                &&& a == around_token(x@)
                &&& b == a
            },
            None => match (c.prefix_1, c.prefix_2) {
                (Some(t1), Some(t2)) => a == around_token(t1@) && b == around_token(t2@),
                (None, None) => a == default_first() && b == default_second(),
                _ => false,
            },
        },
{
}

} // verus!
