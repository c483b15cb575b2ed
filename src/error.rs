use vstd::prelude::*;

verus! {

/// Which of the two mate groups a statement is about.
#[derive(Clone, Copy, Debug, PartialEq, Eq, Structural)]
pub enum Mate {
    First,
    Second,
}

/// Why a pairing run failed.
#[derive(Debug)]
pub enum PairError {
    /// A shared prefix was given together with an individual one.
    ConflictingPrefixes,
    /// Only one of the two individual prefixes was given.
    PartialPrefixes,
    /// A pattern built from a prefix is not a valid regular expression.
    InvalidPattern { pattern: String },
    /// A candidate path has no file name component.
    NoFileName { path: String },
    /// A file name matches neither mate pattern.
    Unmatched { file_name: String, first: String, second: String },
    /// The two groups differ in size; `surplus` is the larger one.
    CountMismatch { first: String, second: String, surplus: Mate },
    /// The groups have equal sizes but their identities differ.
    IdentityMismatch { missing_in_second: Vec<String>, missing_in_first: Vec<String> },
}

/// The mathematical content of a `PairError`.
pub enum PairFault {
    ConflictingPrefixes,
    PartialPrefixes,
    InvalidPattern { pattern: Seq<char> },
    NoFileName { path: Seq<char> },
    Unmatched { file_name: Seq<char>, first: Seq<char>, second: Seq<char> },
    CountMismatch { first: Seq<char>, second: Seq<char>, surplus: Mate },
    IdentityMismatch { missing_in_second: Set<Seq<char>>, missing_in_first: Set<Seq<char>> },
}

/// The views of a sequence of strings.
pub open spec fn views(v: Seq<String>) -> Seq<Seq<char>> {
    v.map_values(|s: String| s@)
}

impl View for PairError {
    type V = PairFault;

    open spec fn view(&self) -> PairFault {
        match self {
            PairError::ConflictingPrefixes => PairFault::ConflictingPrefixes,
            PairError::PartialPrefixes => PairFault::PartialPrefixes,
            PairError::InvalidPattern { pattern } => PairFault::InvalidPattern { pattern: pattern@ },
            PairError::NoFileName { path } => PairFault::NoFileName { path: path@ },
            PairError::Unmatched { file_name, first, second } => PairFault::Unmatched {
                file_name: file_name@,
                first: first@,
                second: second@,
            },
            PairError::CountMismatch { first, second, surplus } => PairFault::CountMismatch {
                first: first@,
                second: second@,
                surplus: *surplus,
            },
            PairError::IdentityMismatch { missing_in_second, missing_in_first } => {
                PairFault::IdentityMismatch {
                    missing_in_second: views(missing_in_second@).to_set(),
                    missing_in_first: views(missing_in_first@).to_set(),
                }
            },
        }
    }
}

} // verus!
