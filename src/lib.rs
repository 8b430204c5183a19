//! Recursive file-name search: a word-boundary fuzzy matcher, a layered
//! exclusion rule engine, and the decision logic of a depth-first directory
//! walk. Reading the file system is left to the caller, which feeds what it
//! read into [`traversal::Search`] and prints what comes back.

pub mod matcher;
pub mod rules;
pub mod text;
pub mod traversal;

pub use matcher::{matches_classified, path_matches_search};
pub use rules::{ExtendError, IgnoreFile, Pattern, RuleSet};
pub use text::{make_case_insensitive, Options};
pub use traversal::{Entry, InputError, PendingDir, Search};
