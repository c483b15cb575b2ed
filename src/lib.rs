//! Discovery and pairing of mate files of paired sequencing reads.
//!
//! Mate files are told apart by a token in their names ("R1" / "R2", or a
//! configured one). The library infers the two mate patterns from the
//! configuration, classifies candidate files against them, checks that every
//! file has a mate, and emits the pairs in a deterministic order.

mod config;
mod error;
mod pairing;
mod paths;
mod pattern;

pub use config::{
    around_token, default_first, default_second, infer_prefixes, inferred_sources,
    lemma_prefix_kinds_exclusive, planned_sources, ArgParser,
};
pub use error::{views, Mate, PairError, PairFault};
pub use pairing::{
    check_pairing, classifiable, classify, emit, emitted, first_unclassifiable, group, identities,
    interleaved, lemma_exclusive_tokens_partition, lemma_pairing_idempotent,
    lemma_validation_is_set_equality, mate_flags, matcher, name_of, pair_files, pairing,
    parse_filelist, paths_result, select, validation,
};
pub use paths::{ends_with, file_name_of, has_suffix, hidden_name, is_hidden};
pub use pattern::{
    group_text, identity_of, join_groups, opt_view, regex_compiles, regex_groups, regex_is_match,
    MatePattern,
};
