//! An in-memory index for exact and approximate full-text search.
//!
//! Documents are split into sentences, transliterated to ASCII, appended
//! to one shared character buffer and indexed by an edge-compressed trie
//! of all the suffixes of their sentences. Queries return every
//! occurrence of a pattern, exactly or within a bounded number of edits,
//! with its document, offset, length, error count and lines.
//!
//! The view of a [`SuffixTrie`] is the list of its documents, each with
//! its name and its sentences. What a query returns is stated over that view:
//! the result of [`SuffixTrie::find_exact`] holds the matches that
//! satisfy [`hits::is_exact_match`], the results of
//! [`SuffixTrie::find_edit_distance`] and
//! [`SuffixTrie::find_edit_distance_ignore`] those that satisfy
//! [`search::is_fuzzy_match`], in ascending order and each once.
//!
//! The modules, from the ground up:
//!
//! - [`record`], [`order`]: matches and leaf markers, their order, sorting;
//! - [`lines`]: per-document metadata and the line of an offset;
//! - [`normalize`], [`config`]: transliteration, sentences, and the rule
//!   by which characters match;
//! - [`model`], [`growth`]: the mathematical model of the trie and the
//!   proofs that every step of its growth keeps it well formed;
//! - [`trie`], [`insert`], [`index`]: the stored trie, the insertion of a
//!   suffix, and the registration of documents;
//! - [`nodes`]: which nodes the trie has for given documents, and how
//!   many;
//! - [`leaves`], [`locate`]: the leaves below a node, and the locations
//!   inside compressed edges;
//! - [`hits`], [`exact`]: what an exact match is, and the exact search;
//! - [`distance`], [`generation`], [`fuzzy`], [`automaton`], [`search`]:
//!   edit distance, generations of partial matches, and the search
//!   within a bounded number of errors;
//! - [`context`], [`archive`], [`laws`]: the text around a match, the
//!   documents as plain values, and laws that relate the queries.

pub mod archive;
pub mod automaton;
pub mod config;
pub mod context;
pub mod distance;
pub mod exact;
pub mod fuzzy;
pub mod generation;
pub mod growth;
pub mod hits;
pub mod index;
pub mod insert;
pub mod laws;
pub mod leaves;
pub mod lines;
pub mod locate;
pub mod model;
pub mod nodes;
pub mod normalize;
pub mod order;
pub mod record;
pub mod search;
pub mod trie;

pub use archive::StoredDocument;
pub use config::MatcherConfig;
pub use fuzzy::SuffixTrieEditMatcher;
pub use generation::{WorkingMatch, WorkingMatchesSet};
pub use lines::Text;
pub use locate::CharLocation;
pub use record::{Leaf, Match};
pub use trie::{Document, EdgeMatch, EdgeMatchKind, SubTrie, SuffixTrie};
