//! The per-query rules by which two characters count as equal.

use std::collections::HashMap;
use vstd::prelude::*;

verus! {

/// The lower-case form of an ASCII capital; any other character is left
/// as it is.
pub open spec fn ascii_lower(c: char) -> char {
    if 'A' <= c && c <= 'Z' {
        ((c as u8) + 32) as char
    } else {
        c
    }
}

/// Two characters count as equal when they are the same, when matching
/// ignores case and they differ in ASCII case only, or when one of them
/// is an ignored character.
pub open spec fn chars_match_spec(
    ignored: Set<char>,
    case_insensitive: bool,
    a: char,
    b: char,
) -> bool {
    a == b || (case_insensitive && ascii_lower(a) == ascii_lower(b)) || ignored.contains(a)
        || ignored.contains(b)
}

/// Executable form of [`ascii_lower`].
pub fn to_ascii_lower(c: char) -> (lower: char)
    ensures
        lower == ascii_lower(c),
{
    if 'A' <= c && c <= 'Z' {
        ((c as u8) + 32) as char
    } else {
        c
    }
}

/// `HashMap::contains_key` for a map keyed by characters: whether the map
/// holds an entry for the character.
#[verifier::external_body]
fn holds_char(map: &HashMap<char, bool>, c: &char) -> (found: bool)
    ensures
        found == map@.contains_key(*c),
{
    map.contains_key(c)
}

/// How one query compares characters and how many errors it allows.
pub struct MatcherConfig {
    pub ignored_characters: HashMap<char, bool>,
    pub max_errors: usize,
    pub case_insensitive: bool,
}

impl MatcherConfig {
    /// The characters that match anything.
    pub open spec fn ignored(&self) -> Set<char> {
        self.ignored_characters@.dom()
    }

    /// Whether the configuration takes `a` and `b` for equal.
    pub open spec fn matches(&self, a: char, b: char) -> bool {
        chars_match_spec(self.ignored(), self.case_insensitive, a, b)
    }

    /// The configuration of exact matching: no errors, no ignored
    /// characters, case matters.
    pub fn exact() -> (config: MatcherConfig)
        ensures
            config.max_errors == 0,
            !config.case_insensitive,
            config.ignored() == Set::<char>::empty(),
    {
        let config = MatcherConfig {
            ignored_characters: HashMap::new(),
            max_errors: 0,
            case_insensitive: false,
        };
        proof {
            assert(config.ignored_characters@.dom() =~= Set::<char>::empty());
        }
        config
    }

    /// Whether the two characters count as equal: they are the same, or
    /// they differ in ASCII case only while case is ignored, or one of
    /// them is an ignored character.
    pub fn chars_match(&self, char1: &char, char2: &char) -> (result: bool)
        ensures
            result == self.matches(*char1, *char2),
    {
        if *char1 == *char2 {
            true
        } else if self.case_insensitive && to_ascii_lower(*char1) == to_ascii_lower(*char2) {
            true
        } else if holds_char(&self.ignored_characters, char1) {
            true
        } else {
            holds_char(&self.ignored_characters, char2)
        }
    }
}

/// Under the configuration of exact matching only equal characters match.
pub proof fn lemma_exact_matches(config: &MatcherConfig, a: char, b: char)
    requires
        !config.case_insensitive,
        config.ignored() == Set::<char>::empty(),
    ensures
        config.matches(a, b) <==> a == b,
{
}

/// Matching is symmetric.
pub proof fn lemma_matches_symmetric(config: &MatcherConfig, a: char, b: char)
    ensures
        config.matches(a, b) == config.matches(b, a),
{
}

} // verus!
