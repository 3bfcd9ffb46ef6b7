//! Matching within a bounded number of errors: the pattern is read
//! character by character while the set of trie locations that can
//! still lead to a match is carried along, each with the least number
//! of errors made to reach it.

use crate::config::MatcherConfig;
use crate::generation::{WorkingMatch, WorkingMatchesSet};
use crate::locate::CharLocation;
use crate::model::TrieModel;
use vstd::prelude::*;

verus! {

impl TrieModel {
    /// The partial match sits at a location of the trie, has read as
    /// many characters as the location is deep and is within the error
    /// budget.
    pub open spec fn state_ok(self, max_errors: usize, loc: CharLocation, w: WorkingMatch) -> bool {
        &&& self.ok_at(loc)
        &&& w.starting_char == loc
        &&& w.length == self.loc_depth(loc.node_index as int, loc.index_in_edge as int)
        &&& w.errors <= max_errors
    }

    /// All partial matches of a generation are in order.
    pub open spec fn states_ok(self, max_errors: usize, gen: Map<CharLocation, WorkingMatch>) -> bool {
        forall|loc: CharLocation| #[trigger]
            gen.contains_key(loc) ==> self.state_ok(max_errors, loc, gen[loc])
    }
}

/// The state of one approximate search: the partial matches after the
/// characters of the pattern read so far, and those after the next one.
pub struct SuffixTrieEditMatcher {
    pub matches_this_gen: WorkingMatchesSet,
    pub matches_next_gen: WorkingMatchesSet,
    pub config: MatcherConfig,
}

impl SuffixTrieEditMatcher {
    /// Both generations are well formed.
    pub open spec fn wf(&self) -> bool {
        self.matches_this_gen.wf() && self.matches_next_gen.wf()
    }

    /// A matcher at the start of a search: only the root is reached.
    pub fn new(config: MatcherConfig) -> (matcher: SuffixTrieEditMatcher)
        ensures
            matcher.wf(),
            matcher.config == config,
            matcher.matches_this_gen@ == Map::<CharLocation, WorkingMatch>::empty().insert(
                CharLocation { node_index: 0, index_in_edge: 0 },
                WorkingMatch {
                    starting_char: CharLocation { node_index: 0, index_in_edge: 0 },
                    errors: 0,
                    length: 0,
                },
            ),
            matcher.matches_next_gen@ == Map::<CharLocation, WorkingMatch>::empty(),
    {
        SuffixTrieEditMatcher {
            matches_this_gen: WorkingMatchesSet::only_root_node(),
            matches_next_gen: WorkingMatchesSet::empty(),
            config,
        }
    }

    /// Files a partial match for the characters read so far, unless it
    /// has more errors than allowed.
    pub fn add_this_generation(&mut self, errors: usize, location: CharLocation, length: usize)
        requires
            old(self).wf(),
        ensures
            final(self).wf(),
            final(self).config == old(self).config,
            final(self).matches_next_gen == old(self).matches_next_gen,
            final(self).matches_this_gen@ == filed(
                old(self).matches_this_gen@,
                old(self).config.max_errors,
                errors,
                location,
                length,
            ),
    {
        if errors <= self.config.max_errors {
            self.matches_this_gen.add_working_match(location, errors, length);
        }
    }

    /// Files a partial match for one more character of the pattern,
    /// unless it has more errors than allowed.
    pub fn add_next_generation(&mut self, errors: usize, location: CharLocation, length: usize)
        requires
            old(self).wf(),
        ensures
            final(self).wf(),
            final(self).config == old(self).config,
            final(self).matches_this_gen == old(self).matches_this_gen,
            final(self).matches_next_gen@ == filed(
                old(self).matches_next_gen@,
                old(self).config.max_errors,
                errors,
                location,
                length,
            ),
    {
        if errors <= self.config.max_errors {
            self.matches_next_gen.add_working_match(location, errors, length);
        }
    }

    /// The next character of the pattern is left out: the location
    /// stays, at the price of one error.
    pub fn add_after_pattern_delete(&mut self, existing_match: WorkingMatch)
        requires
            old(self).wf(),
        ensures
            final(self).wf(),
            final(self).config == old(self).config,
            final(self).matches_this_gen == old(self).matches_this_gen,
            final(self).matches_next_gen@ == filed_after(
                old(self).matches_next_gen@,
                old(self).config.max_errors,
                existing_match.errors,
                1,
                existing_match.starting_char,
                existing_match.length,
            ),
    {
        if existing_match.errors < self.config.max_errors {
            self.add_next_generation(
                existing_match.errors + 1,
                existing_match.starting_char,
                existing_match.length,
            );
        }
    }

    /// A character of the text is left out: the location moves on to
    /// `child` while the pattern stays, at the price of one error.
    pub fn add_after_text_delete(&mut self, existing_match: WorkingMatch, child: CharLocation)
        requires
            old(self).wf(),
            existing_match.length < usize::MAX,
        ensures
            final(self).wf(),
            final(self).config == old(self).config,
            final(self).matches_next_gen == old(self).matches_next_gen,
            final(self).matches_this_gen@ == filed_after(
                old(self).matches_this_gen@,
                old(self).config.max_errors,
                existing_match.errors,
                1,
                child,
                (existing_match.length + 1) as usize,
            ),
    {
        if existing_match.errors < self.config.max_errors {
            self.add_this_generation(existing_match.errors + 1, child, existing_match.length + 1);
        }
    }

    /// The next character of the pattern is put against the character
    /// that leads to `child`. Where the two match, or one of them is an
    /// ignored character, this costs nothing; else it costs one error.
    pub fn add_after_mismatch(
        &mut self,
        existing_match: WorkingMatch,
        child: CharLocation,
        pattern_char: &char,
        edge: &char,
    )
        requires
            old(self).wf(),
            existing_match.length < usize::MAX,
        ensures
            final(self).wf(),
            final(self).config == old(self).config,
            final(self).matches_this_gen == old(self).matches_this_gen,
            final(self).matches_next_gen@ == filed_after(
                old(self).matches_next_gen@,
                old(self).config.max_errors,
                existing_match.errors,
                if old(self).config.matches(*edge, *pattern_char) {
                    0
                } else {
                    1
                },
                child,
                (existing_match.length + 1) as usize,
            ),
    {
        if self.config.chars_match(edge, pattern_char) {
            self.add_next_generation(existing_match.errors, child, existing_match.length + 1);
        } else if existing_match.errors < self.config.max_errors {
            self.add_next_generation(existing_match.errors + 1, child, existing_match.length + 1);
        }
    }

    /// The partial matches for one more character become those for the
    /// characters read so far.
    pub fn go_to_next_generation(&mut self)
        requires
            old(self).wf(),
        ensures
            final(self).wf(),
            final(self).config == old(self).config,
            final(self).matches_this_gen == old(self).matches_next_gen,
            final(self).matches_next_gen@ == Map::<CharLocation, WorkingMatch>::empty(),
    {
        let mut fresh = WorkingMatchesSet::empty();
        std::mem::swap(&mut self.matches_next_gen, &mut fresh);
        self.matches_this_gen = fresh;
    }
}

/// The generation after a partial match was filed: the match is put in
/// where it is within the error budget, and where its location was
/// filed already, the smaller number of errors stays.
pub open spec fn filed(
    gen: Map<CharLocation, WorkingMatch>,
    max_errors: usize,
    errors: usize,
    location: CharLocation,
    length: usize,
) -> Map<CharLocation, WorkingMatch> {
    if errors <= max_errors {
        gen.insert(
            location,
            WorkingMatch {
                starting_char: location,
                errors: if gen.contains_key(location) && gen[location].errors < errors {
                    gen[location].errors
                } else {
                    errors
                },
                length,
            },
        )
    } else {
        gen
    }
}

/// The generation after a partial match with `errors + extra` errors
/// was filed.
pub open spec fn filed_after(
    gen: Map<CharLocation, WorkingMatch>,
    max_errors: usize,
    errors: usize,
    extra: int,
    location: CharLocation,
    length: usize,
) -> Map<CharLocation, WorkingMatch> {
    if errors + extra <= max_errors {
        filed(gen, max_errors, (errors + extra) as usize, location, length)
    } else {
        gen
    }
}

} // verus!
