//! The approximate search itself, and the queries of the index that
//! allow errors.

use crate::automaton::{Drain, Generation, Reading};
use crate::config::{lemma_matches_symmetric, MatcherConfig};
use crate::distance::{lemma_dist_has_prefix, lemma_match_cost_push, match_cost};
use crate::exact::leaf_of;
use crate::fuzzy::SuffixTrieEditMatcher;
use crate::generation::{WorkingMatch, WorkingMatchesSet};
use crate::hits::match_at;
use crate::locate::CharLocation;
use crate::model::TrieModel;
use crate::normalize::{chars_of, is_plain, transliterate, transliteration};
use crate::record::{
    lemma_sorted_distinct_is_strict, leaves_strictly_ascending, matches_strictly_ascending,
    sort_matches, Leaf, Match,
};
use crate::trie::{Document, SuffixTrie};
use std::collections::HashMap;
use vstd::prelude::*;

verus! {

/// `m` reports a span that the pattern matches within the allowed
/// number of errors: the span lies inside one sentence, and `m.errors`
/// is the least number of errors with which the pattern can be laid
/// along the span so that its last character is not left out. A pattern
/// without characters matches nothing.
pub open spec fn is_fuzzy_match(
    docs: Seq<Document>,
    pattern: Seq<char>,
    ignored: Set<char>,
    case_insensitive: bool,
    max_errors: usize,
    m: Match,
) -> bool {
    &&& pattern.len() > 0
    &&& m.text_index < docs.len()
    &&& docs[m.text_index as int].holds_span(m.index_in_str as int, m.length as int)
    &&& match_cost(
        ignored,
        case_insensitive,
        pattern,
        docs[m.text_index as int].span(m.index_in_str as int, m.length as int),
    ) == Some(m.errors as nat)
    &&& m.errors <= max_errors
    &&& m == match_at(docs, m.text_index, m.index_in_str, m.length, m.errors)
}

impl TrieModel {
    /// The text read up to a location, cut short, is the text read up
    /// to a location.
    pub proof fn lemma_loc_take(self, loc: CharLocation, len: int) -> (short: CharLocation)
        requires
            self.inv(),
            self.fits(),
            self.ok_at(loc),
            0 <= len <= self.str_at(loc).len(),
        ensures
            self.ok_at(short),
            self.str_at(short) == self.str_at(loc).take(len),
    {
        let n = loc.node_index as int;
        let o = loc.index_in_edge as int;
        self.lemma_loc_bounds(n, o);
        self.lemma_node_bounds(n);
        if n == 0 {
            assert(self.str_at(loc).take(len) =~= self.str_at(loc));
            loc
        } else {
            let found = self.lemma_loc_on_path(n, len);
            self.lemma_loc_bounds(found.0, found.1);
            self.lemma_node_bounds(found.0);
            let short = CharLocation {
                node_index: found.0 as usize,
                index_in_edge: found.1 as usize,
            };
            assert(self.str_at(short) =~= self.str_at(loc).take(len));
            short
        }
    }

    /// Where no location is within the budget for a pattern, none is
    /// for the pattern with one more character.
    pub proof fn lemma_none_reachable(self, r: Reading, q: Seq<char>, x: char)
        requires
            self.inv(),
            self.fits(),
            forall|loc: CharLocation| !#[trigger] self.reachable(r, q, loc),
        ensures
            forall|loc: CharLocation| !#[trigger] self.reachable(r, q.push(x), loc),
    {
        assert forall|loc: CharLocation| !#[trigger] self.reachable(r, q.push(x), loc) by {
            if self.reachable(r, q.push(x), loc) {
                let n = loc.node_index as int;
                let o = loc.index_in_edge as int;
                let t = self.str_at(loc);
                self.lemma_loc_bounds(n, o);
                self.lemma_node_bounds(n);
                lemma_match_cost_push(r.ignored, r.case_insensitive, q, x, t);
                let v = self.cost_at(r, q.push(x), loc)->0;
                let near: CharLocation = if v == self.dist_at(r, q, loc) + 1 {
                    loc
                } else {
                    self.lemma_loc_parent(n, o);
                    let (pn, po) = self.loc_parent(n, o);
                    self.lemma_loc_bounds(pn, po);
                    self.lemma_node_bounds(pn);
                    CharLocation { node_index: pn as usize, index_in_edge: po as usize }
                };
                assert(self.ok_at(near));
                assert(self.dist_at(r, q, near) <= r.max_errors);
                let len = lemma_dist_has_prefix(
                    r.ignored,
                    r.case_insensitive,
                    q,
                    self.str_at(near),
                );
                let short = self.lemma_loc_take(near, len);
                assert(self.reachable(r, q, short));
            }
        }
    }

    /// Where no location is within the budget for a prefix of the
    /// pattern, none is for the pattern.
    pub proof fn lemma_stays_empty(self, r: Reading, pattern: Seq<char>, i: int)
        requires
            self.inv(),
            self.fits(),
            0 <= i <= pattern.len(),
            forall|loc: CharLocation| !#[trigger] self.reachable(r, pattern.take(i), loc),
        ensures
            forall|loc: CharLocation| !#[trigger] self.reachable(r, pattern, loc),
        decreases pattern.len() - i,
    {
        if i == pattern.len() {
            assert(pattern.take(i) =~= pattern);
        } else {
            self.lemma_none_reachable(r, pattern.take(i), pattern[i]);
            assert(pattern.take(i + 1) =~= pattern.take(i).push(pattern[i]));
            self.lemma_stays_empty(r, pattern, i + 1);
        }
    }

    /// Whether a generation is exact does not depend on what is being
    /// read.
    pub proof fn lemma_gen_exact_any(self, r1: Reading, r2: Reading, pattern: Seq<char>, gen: Generation)
        requires
            r1.ignored == r2.ignored,
            r1.case_insensitive == r2.case_insensitive,
            r1.max_errors == r2.max_errors,
            self.gen_exact(r1, pattern, gen),
        ensures
            self.gen_exact(r2, pattern, gen),
    {
        assert forall|loc: CharLocation| #[trigger]
            self.reachable(r2, pattern, loc) implies gen.contains_key(loc) by {
            assert(self.reachable(r1, pattern, loc));
        }
    }
}

impl SuffixTrie {
    /// A leaf below a location marks a suffix that starts with the text
    /// read up to the location.
    pub(crate) proof fn lemma_leaf_span(&self, loc: CharLocation, leaf: Leaf)
        requires
            self.wf(),
            self.model().ok_at(loc),
            self.model().under(loc.node_index as int, leaf),
        ensures
            self.holds(leaf),
            self.docs()[leaf.text_index as int].holds_span(
                leaf.index_in_str as int,
                self.model().loc_depth(loc.node_index as int, loc.index_in_edge as int),
            ),
            self.model().str_at(loc) == self.docs()[leaf.text_index as int].span(
                leaf.index_in_str as int,
                self.model().loc_depth(loc.node_index as int, loc.index_in_edge as int),
            ),
            leaf.index_in_str + self.model().loc_depth(
                loc.node_index as int,
                loc.index_in_edge as int,
            ) <= usize::MAX,
    {
        self.lemma_wf();
        self.lemma_view();
        self.lemma_holds(leaf);
        let m = self.model();
        let d = leaf.text_index as int;
        let pos = leaf.index_in_str as int;
        let h = m.home_of(leaf);
        let n = loc.node_index as int;
        let o = loc.index_in_edge as int;
        assert(m.record_ok(d, pos));
        m.lemma_loc_prefix(n, o, h);
        m.lemma_loc_bounds(n, o);
        m.lemma_node_bounds(h);
        let doc = self.docs()[d];
        let e = doc.suffix_end(pos);
        let len = m.loc_depth(n, o);
        assert(m.label(h) == doc.text().subrange(pos, e));
        assert(m.str_at(loc) =~= doc.span(pos, len)) by {
            assert(m.str_at(loc) =~= m.label(h).subrange(0, len));
            assert(doc.text().subrange(pos, e).subrange(0, len) =~= doc.text().subrange(
                pos,
                pos + len,
            ));
        }
    }

    /// The location at which the span of a match ends in the trie.
    pub(crate) proof fn lemma_match_location(&self, r: Reading, pattern: Seq<char>, mt: Match) -> (loc:
        CharLocation)
        requires
            self.wf(),
            is_fuzzy_match(
                self.docs(),
                pattern,
                r.ignored,
                r.case_insensitive,
                r.max_errors,
                mt,
            ),
        ensures
            self.model().reachable(r, pattern, loc),
            self.model().cost_at(r, pattern, loc) == Some(mt.errors as nat),
            self.model().loc_depth(loc.node_index as int, loc.index_in_edge as int) == mt.length,
            self.model().under(loc.node_index as int, leaf_of(mt)),
    {
        self.lemma_wf();
        self.lemma_view();
        let leaf = leaf_of(mt);
        self.lemma_holds(leaf);
        let m = self.model();
        let d = leaf.text_index as int;
        let pos = leaf.index_in_str as int;
        let h = m.home_of(leaf);
        let len = mt.length as int;
        assert(m.record_ok(d, pos));
        m.lemma_node_bounds(h);
        let found = m.lemma_loc_on_path(h, len);
        let doc = self.docs()[d];
        let e = doc.suffix_end(pos);
        assert(m.loc_string(found.0, found.1) =~= doc.span(pos, len)) by {
            assert(m.label(h) == doc.text().subrange(pos, e));
            assert(m.buf.subrange(m.begin(h), m.begin(h) + len) =~= m.label(h).subrange(0, len));
            assert(doc.text().subrange(pos, e).subrange(0, len) =~= doc.text().subrange(
                pos,
                pos + len,
            ));
        }
        m.lemma_loc_bounds(found.0, found.1);
        m.lemma_node_bounds(found.0);
        assert(m.buf.len() == self.str_storage.len());
        assert(m.nodes.len() == self.node_storage.len());
        CharLocation { node_index: found.0 as usize, index_in_edge: found.1 as usize }
    }

    /// The match reports a leaf below one of the partial matches taken,
    /// with that match's length and errors.
    pub open(crate) spec fn from_taken(&self, taken: Seq<WorkingMatch>, mt: Match) -> bool {
        exists|t: int|
            0 <= t < taken.len() && self.model().under(
                (#[trigger] taken[t]).starting_char.node_index as int,
                leaf_of(mt),
            ) && taken[t].length == mt.length && taken[t].errors == mt.errors
    }

    /// What the matches found are while the last generation is gone
    /// through.
    pub open(crate) spec fn gathered(
        &self,
        r: Reading,
        pattern: Seq<char>,
        taken: Seq<WorkingMatch>,
        found: Seq<Match>,
    ) -> bool {
        &&& forall|t: int|
            0 <= t < found.len() ==> is_fuzzy_match(
                self.docs(),
                pattern,
                r.ignored,
                r.case_insensitive,
                r.max_errors,
                #[trigger] found[t],
            ) && self.from_taken(taken, found[t])
        &&& forall|mt: Match|
            #![trigger found.contains(mt)]
            is_fuzzy_match(
                self.docs(),
                pattern,
                r.ignored,
                r.case_insensitive,
                r.max_errors,
                mt,
            ) && self.from_taken(taken, mt) ==> found.contains(mt)
        &&& forall|s: int, t: int|
            0 <= s < t < found.len() ==> (#[trigger] found[s]).key() != (#[trigger] found[t]).key()
    }

    /// Adding the matches for the leaves below one more partial match
    /// keeps the matches found in order.
    pub(crate) proof fn lemma_gather_step(
        &self,
        r: Reading,
        pattern: Seq<char>,
        gen: Generation,
        taken: Seq<WorkingMatch>,
        w: WorkingMatch,
        found: Seq<Match>,
        leaves: Seq<Leaf>,
        more: Seq<Match>,
    )
        requires
            self.wf(),
            self.model().gen_exact(r, pattern, gen),
            forall|t: int|
                0 <= t < taken.len() ==> gen.contains_key((#[trigger] taken[t]).starting_char)
                    && gen[taken[t].starting_char] == taken[t] && taken[t].starting_char
                    != w.starting_char,
            gen.contains_key(w.starting_char),
            gen[w.starting_char] == w,
            pattern.len() > 0,
            self.gathered(r, pattern, taken, found),
            leaves_strictly_ascending(leaves),
            forall|leaf: Leaf|
                leaves.contains(leaf) <==> self.model().under(
                    w.starting_char.node_index as int,
                    leaf,
                ),
            more.len() == leaves.len(),
            forall|i: int|
                0 <= i < leaves.len() ==> #[trigger] more[i] == match_at(
                    self.docs(),
                    leaves[i].text_index,
                    leaves[i].index_in_str,
                    w.length,
                    w.errors,
                ),
        ensures
            self.gathered(r, pattern, taken.push(w), found + more),
    {
        let m = self.model();
        let all = found + more;
        let taken2 = taken.push(w);
        let here = w.starting_char;
        self.lemma_wf();
        assert(m.state_ok(r.max_errors, here, w));
        assert(taken2[taken.len() as int] == w);
        assert forall|i: int| 0 <= i < more.len() implies is_fuzzy_match(
            self.docs(),
            pattern,
            r.ignored,
            r.case_insensitive,
            r.max_errors,
            #[trigger] more[i],
        ) && leaf_of(more[i]) == leaves[i] && m.under(here.node_index as int, leaves[i]) by {
            assert(leaves.contains(leaves[i]));
            self.lemma_leaf_span(here, leaves[i]);
        }
        assert forall|t: int| 0 <= t < all.len() implies is_fuzzy_match(
            self.docs(),
            pattern,
            r.ignored,
            r.case_insensitive,
            r.max_errors,
            #[trigger] all[t],
        ) && self.from_taken(taken2, all[t]) by {
            if t < found.len() {
                assert(all[t] == found[t]);
                let k = choose|k: int|
                    0 <= k < taken.len() && m.under(
                        (#[trigger] taken[k]).starting_char.node_index as int,
                        leaf_of(found[t]),
                    ) && taken[k].length == found[t].length && taken[k].errors == found[t].errors;
                assert(taken2[k] == taken[k]);
            } else {
                assert(all[t] == more[t - found.len()]);
            }
        }
        assert forall|mt: Match|
            #![trigger all.contains(mt)]
            is_fuzzy_match(
                self.docs(),
                pattern,
                r.ignored,
                r.case_insensitive,
                r.max_errors,
                mt,
            ) && self.from_taken(taken2, mt) implies all.contains(mt) by {
            let k = choose|k: int|
                0 <= k < taken2.len() && m.under(
                    (#[trigger] taken2[k]).starting_char.node_index as int,
                    leaf_of(mt),
                ) && taken2[k].length == mt.length && taken2[k].errors == mt.errors;
            if k < taken.len() {
                assert(taken2[k] == taken[k]);
                assert(self.from_taken(taken, mt));
                assert(found.contains(mt));
                let t = choose|t: int| 0 <= t < found.len() && found[t] == mt;
                assert(all[t] == mt);
            } else {
                assert(leaves.contains(leaf_of(mt)));
                let i = choose|i: int| 0 <= i < leaves.len() && leaves[i] == leaf_of(mt);
                assert(more[i] == mt);
                assert(all[found.len() + i] == mt);
            }
        }
        assert forall|s: int, t: int| 0 <= s < t < all.len() implies (#[trigger] all[s]).key() != (
        #[trigger] all[t]).key() by {
            if t < found.len() {
                assert(all[s] == found[s] && all[t] == found[t]);
            } else if s >= found.len() {
                let i = s - found.len();
                let j = t - found.len();
                assert(all[s] == more[i] && all[t] == more[j]);
                assert(leaves[i].precedes(leaves[j]));
            } else {
                assert(all[s] == found[s]);
                let j = t - found.len();
                assert(all[t] == more[j]);
                if found[s].key() == more[j].key() {
                    let leaf = leaves[j];
                    assert(leaf_of(found[s]) == leaf);
                    let k = choose|k: int|
                        0 <= k < taken.len() && m.under(
                            (#[trigger] taken[k]).starting_char.node_index as int,
                            leaf_of(found[s]),
                        ) && taken[k].length == found[s].length && taken[k].errors
                            == found[s].errors;
                    let there = taken[k].starting_char;
                    assert(m.state_ok(r.max_errors, there, gen[there]));
                    self.lemma_leaf_span(there, leaf);
                    self.lemma_leaf_span(here, leaf);
                    m.lemma_loc_unique(
                        there.node_index as int,
                        there.index_in_edge as int,
                        here.node_index as int,
                        here.index_in_edge as int,
                    );
                    assert(there == here);
                }
            }
        }
    }

    /// Once the whole last generation is gone through, every match is
    /// found.
    pub(crate) proof fn lemma_gather_all(
        &self,
        r: Reading,
        pattern: Seq<char>,
        gen: Generation,
        taken: Seq<WorkingMatch>,
        mt: Match,
    )
        requires
            self.wf(),
            self.model().gen_exact(r, pattern, gen),
            forall|loc: CharLocation| #[trigger]
                gen.contains_key(loc) ==> exists|t: int|
                    0 <= t < taken.len() && #[trigger] taken[t] == gen[loc],
            is_fuzzy_match(
                self.docs(),
                pattern,
                r.ignored,
                r.case_insensitive,
                r.max_errors,
                mt,
            ),
        ensures
            self.from_taken(taken, mt),
    {
        let m = self.model();
        let loc = self.lemma_match_location(r, pattern, mt);
        assert(gen.contains_key(loc));
        assert(m.state_ok(r.max_errors, loc, gen[loc]));
        let t = choose|t: int| 0 <= t < taken.len() && #[trigger] taken[t] == gen[loc];
        assert(m.under(taken[t].starting_char.node_index as int, leaf_of(mt)));
    }
}

impl SuffixTrieEditMatcher {
    /// Every span of the indexed sentences that the pattern matches
    /// within the allowed number of errors, in ascending order. The
    /// search starts afresh, whatever partial matches the matcher held,
    /// and leaves none behind. A pattern without characters matches
    /// nothing.
    pub fn find_edit_distance_ignore(&mut self, suffix_trie: &SuffixTrie, pattern: &Vec<char>) -> (matches:
        Vec<Match>)
        requires
            suffix_trie.wf(),
        ensures
            pattern.len() == 0 ==> matches@.len() == 0,
            matches_strictly_ascending(matches@),
            forall|m: Match|
                matches@.contains(m) <==> is_fuzzy_match(
                    suffix_trie@,
                    pattern@,
                    old(self).config.ignored(),
                    old(self).config.case_insensitive,
                    old(self).config.max_errors,
                    m,
                ),
            final(self).wf(),
            final(self).config == old(self).config,
            final(self).matches_this_gen@ == Map::<CharLocation, WorkingMatch>::empty(),
            final(self).matches_next_gen@ == Map::<CharLocation, WorkingMatch>::empty(),
    {
        self.matches_next_gen = WorkingMatchesSet::empty();
        if pattern.len() == 0 {
            self.matches_this_gen = WorkingMatchesSet::empty();
            return Vec::new();
        }
        self.matches_this_gen = WorkingMatchesSet::only_root_node();
        let ghost m = suffix_trie.model();
        let max_errors: usize = self.config.max_errors;
        let ghost ignored = self.config.ignored();
        let ghost ci = self.config.case_insensitive;
        let ghost base = Reading {
            ignored,
            case_insensitive: ci,
            max_errors,
            prefix: Seq::empty(),
            c: 'a',
        };
        proof {
            suffix_trie.lemma_wf();
            suffix_trie.lemma_view();
            m.lemma_loc_bounds(0, 0);
            assert(m.buf.len() == suffix_trie.str_storage.len());
            assert(m.nodes.len() == suffix_trie.node_storage.len());
            m.lemma_first_generation(base, self.matches_this_gen@);
            assert(pattern@.take(0) =~= Seq::<char>::empty());
        }
        let mut i: usize = 0;
        while i < pattern.len()
            invariant
                suffix_trie.wf(),
                suffix_trie.built(),
                pattern.len() > 0,
                m == suffix_trie.model(),
                m.fits(),
                self.wf(),
                self.config == old(self).config,
                self.config.max_errors == max_errors,
                ignored == self.config.ignored(),
                ci == self.config.case_insensitive,
                base == (Reading {
                    ignored,
                    case_insensitive: ci,
                    max_errors,
                    prefix: Seq::empty(),
                    c: 'a',
                }),
                i <= pattern.len(),
                m.gen_exact(base, pattern@.take(i as int), self.matches_this_gen@),
                self.matches_next_gen@ == Map::<CharLocation, WorkingMatch>::empty(),
            decreases pattern.len() - i,
        {
            let c: char = pattern[i];
            let ghost r = Reading {
                ignored,
                case_insensitive: ci,
                max_errors,
                prefix: pattern@.take(i as int),
                c,
            };
            let ghost mut d = Drain {
                layer: self.matches_this_gen@,
                deeper: Map::empty(),
                next: Map::empty(),
                done: Map::empty(),
                busy: None,
                seen: Set::empty(),
                skipped: false,
            };
            let ghost mut level: int = 0;
            proof {
                m.lemma_gen_exact_any(base, r, r.prefix, self.matches_this_gen@);
                m.lemma_drain_start(r, self.matches_this_gen@);
            }
            while !self.matches_this_gen.is_empty()
                invariant
                    suffix_trie.built(),
                    m == suffix_trie.model(),
                    m.fits(),
                    self.wf(),
                    self.config == old(self).config,
                    self.config.max_errors == max_errors,
                    ignored == self.config.ignored(),
                    ci == self.config.case_insensitive,
                    r == (Reading {
                        ignored,
                        case_insensitive: ci,
                        max_errors,
                        prefix: pattern@.take(i as int),
                        c,
                    }),
                    0 <= level,
                    m.drain_inv(r, d),
                    d.busy is None,
                    d.layer == self.matches_this_gen@,
                    d.deeper == Map::<CharLocation, WorkingMatch>::empty(),
                    d.next == self.matches_next_gen@,
                    forall|loc: CharLocation| #[trigger]
                        self.matches_this_gen@.contains_key(loc)
                            ==> self.matches_this_gen@[loc].errors >= level,
                decreases max_errors + 1 - level,
            {
                let mut layer = WorkingMatchesSet::empty();
                std::mem::swap(&mut layer, &mut self.matches_this_gen);
                proof {
                    let some = layer.indices[0];
                    assert(layer.working_matches@.contains_key(crate::generation::key_of(some)));
                    assert(layer@.contains_key(some));
                    assert(layer@[some].errors >= level);
                    assert(m.state_ok(max_errors, some, layer@[some]));
                }
                while !layer.is_empty()
                    invariant
                        suffix_trie.built(),
                        m == suffix_trie.model(),
                        m.fits(),
                        self.wf(),
                        layer.wf(),
                        self.config == old(self).config,
                        self.config.max_errors == max_errors,
                        ignored == self.config.ignored(),
                        ci == self.config.case_insensitive,
                        r == (Reading {
                            ignored,
                            case_insensitive: ci,
                            max_errors,
                            prefix: pattern@.take(i as int),
                            c,
                        }),
                        level <= max_errors,
                        m.drain_inv(r, d),
                        d.busy is None,
                        d.layer == layer@,
                        d.deeper == self.matches_this_gen@,
                        d.next == self.matches_next_gen@,
                        forall|loc: CharLocation| #[trigger]
                            layer@.contains_key(loc) ==> layer@[loc].errors >= level,
                        forall|loc: CharLocation| #[trigger]
                            self.matches_this_gen@.contains_key(loc)
                                ==> self.matches_this_gen@[loc].errors >= level + 1,
                    decreases layer.indices@.len(),
                {
                    let next = layer.next();
                    let parent_match: WorkingMatch = next.unwrap();
                    let ghost here = parent_match.starting_char;
                    proof {
                        d = m.lemma_take(r, d, parent_match);
                        assert(d.layer == layer@);
                    }
                    self.add_after_pattern_delete(parent_match);
                    proof {
                        d = m.lemma_skip(r, d, parent_match, self.matches_next_gen@);
                    }
                    let children = suffix_trie.generation_after_char_dict(
                        parent_match.starting_char,
                    );
                    let mut j: usize = 0;
                    while j < children.len()
                        invariant
                            suffix_trie.built(),
                            m == suffix_trie.model(),
                            m.fits(),
                            self.wf(),
                            self.config == old(self).config,
                            self.config.max_errors == max_errors,
                            ignored == self.config.ignored(),
                            ci == self.config.case_insensitive,
                            r == (Reading {
                                ignored,
                                case_insensitive: ci,
                                max_errors,
                                prefix: pattern@.take(i as int),
                                c,
                            }),
                            j <= children.len(),
                            here == parent_match.starting_char,
                            parent_match.errors >= level,
                            crate::locate::lists_steps(
                                m,
                                here.node_index as int,
                                here.index_in_edge as int,
                                children@,
                            ),
                            m.drain_inv(r, d),
                            m.taken_ok(r, d, parent_match),
                            d.skipped,
                            d.layer == layer@,
                            d.deeper == self.matches_this_gen@,
                            d.next == self.matches_next_gen@,
                            forall|t: int|
                                0 <= t < j ==> d.seen.contains((#[trigger] children@[t]).1),
                            forall|loc: CharLocation| #[trigger]
                                self.matches_this_gen@.contains_key(loc)
                                    ==> self.matches_this_gen@[loc].errors >= level + 1,
                        decreases children.len() - j,
                    {
                        let edge: char = children[j].0;
                        let child: CharLocation = children[j].1;
                        proof {
                            assert(m.steps_to(
                                here.node_index as int,
                                here.index_in_edge as int,
                                children@[j as int].0,
                                child.node_index as int,
                                child.index_in_edge as int,
                            ));
                            m.lemma_loc_bounds(child.node_index as int, child.index_in_edge as int);
                            lemma_matches_symmetric(&self.config, edge, c);
                        }
                        self.add_after_mismatch(parent_match, child, &c, &edge);
                        self.add_after_text_delete(parent_match, child);
                        proof {
                            d =
                            m.lemma_child(
                                r,
                                d,
                                parent_match,
                                edge,
                                child,
                                self.matches_next_gen@,
                                self.matches_this_gen@,
                            );
                        }
                        j = j + 1;
                    }
                    proof {
                        d = m.lemma_passed(r, d, parent_match, children@);
                    }
                }
                proof {
                    d = m.lemma_next_layer(r, d);
                    level = level + 1;
                }
            }
            proof {
                m.lemma_drain_end(r, d);
                assert(pattern@.take(i as int + 1) =~= pattern@.take(i as int).push(c));
                m.lemma_gen_exact_any(r, base, pattern@.take(i as int + 1), self.matches_next_gen@);
            }
            if self.matches_next_gen.is_empty() {
                proof {
                    let gone = pattern@.take(i as int + 1);
                    assert forall|loc: CharLocation| !#[trigger] m.reachable(base, gone, loc) by {
                        if m.reachable(base, gone, loc) {
                            assert(self.matches_next_gen@.contains_key(loc));
                        }
                    }
                    m.lemma_stays_empty(base, pattern@, i as int + 1);
                    suffix_trie.lemma_view();
                    assert forall|mt: Match|
                        !is_fuzzy_match(suffix_trie@, pattern@, ignored, ci, max_errors, mt) by {
                        if is_fuzzy_match(suffix_trie@, pattern@, ignored, ci, max_errors, mt) {
                            suffix_trie.lemma_match_location(base, pattern@, mt);
                        }
                    }
                }
                return Vec::new();
            }
            self.go_to_next_generation();
            i = i + 1;
        }
        proof {
            assert(pattern@.take(pattern.len() as int) =~= pattern@);
        }
        let ghost gen = self.matches_this_gen@;
        let ghost mut taken: Seq<WorkingMatch> = Seq::empty();
        let mut matches: Vec<Match> = Vec::new();
        while !self.matches_this_gen.is_empty()
            invariant
                suffix_trie.wf(),
                suffix_trie.built(),
                pattern.len() > 0,
                m == suffix_trie.model(),
                self.wf(),
                base == (Reading {
                    ignored,
                    case_insensitive: ci,
                    max_errors,
                    prefix: Seq::empty(),
                    c: 'a',
                }),
                m.gen_exact(base, pattern@, gen),
                self.config == old(self).config,
                self.matches_next_gen@ == Map::<CharLocation, WorkingMatch>::empty(),
                forall|loc: CharLocation| #[trigger]
                    self.matches_this_gen@.contains_key(loc) ==> gen.contains_key(loc)
                        && self.matches_this_gen@[loc] == gen[loc],
                forall|loc: CharLocation| #[trigger]
                    gen.contains_key(loc) ==> self.matches_this_gen@.contains_key(loc) || exists|
                        t: int,
                    |
                        0 <= t < taken.len() && #[trigger] taken[t] == gen[loc],
                forall|t: int|
                    0 <= t < taken.len() ==> gen.contains_key((#[trigger] taken[t]).starting_char)
                        && gen[taken[t].starting_char] == taken[t]
                        && !self.matches_this_gen@.contains_key(taken[t].starting_char),
                suffix_trie.gathered(base, pattern@, taken, matches@),
            decreases self.matches_this_gen.indices@.len(),
        {
            let ghost cur = self.matches_this_gen@;
            let next = self.matches_this_gen.next();
            let parent_match: WorkingMatch = next.unwrap();
            let ghost here = parent_match.starting_char;
            proof {
                assert(m.state_ok(max_errors, here, gen[here]));
            }
            let leaf_children = suffix_trie.get_all_leaf_descendants(
                parent_match.starting_char.node_index,
            );
            proof {
                assert forall|t: int| 0 <= t < leaf_children.len() implies suffix_trie.holds(
                    #[trigger] leaf_children[t],
                ) && leaf_children[t].index_in_str + parent_match.length <= usize::MAX by {
                    assert(leaf_children@.contains(leaf_children[t]));
                    suffix_trie.lemma_leaf_span(here, leaf_children[t]);
                }
            }
            let ghost leaf_list = leaf_children@;
            let parent_matches = suffix_trie.match_array_from_leaves(
                leaf_children,
                parent_match.length,
                parent_match.errors,
            );
            let ghost before = matches@;
            let mut j: usize = 0;
            while j < parent_matches.len()
                invariant
                    j <= parent_matches.len(),
                    matches@ == before + parent_matches@.take(j as int),
                decreases parent_matches.len() - j,
            {
                matches.push(parent_matches[j]);
                proof {
                    assert(parent_matches@.take(j as int + 1) =~= parent_matches@.take(
                        j as int,
                    ).push(parent_matches@[j as int]));
                    assert(matches@ =~= before + parent_matches@.take(j as int + 1));
                }
                j = j + 1;
            }
            proof {
                assert(parent_matches@.take(parent_matches.len() as int) =~= parent_matches@);
                suffix_trie.lemma_view();
                assert forall|t: int| 0 <= t < leaf_list.len() implies #[trigger] parent_matches@[t]
                    == match_at(
                    suffix_trie.docs(),
                    leaf_list[t].text_index,
                    leaf_list[t].index_in_str,
                    parent_match.length,
                    parent_match.errors,
                ) by {}
                suffix_trie.lemma_gather_step(
                    base,
                    pattern@,
                    gen,
                    taken,
                    parent_match,
                    before,
                    leaf_list,
                    parent_matches@,
                );
                let taken2 = taken.push(parent_match);
                assert(taken2[taken.len() as int] == parent_match);
                assert forall|loc: CharLocation| #[trigger]
                    gen.contains_key(loc) implies self.matches_this_gen@.contains_key(loc)
                    || exists|t: int| 0 <= t < taken2.len() && #[trigger] taken2[t] == gen[loc] by {
                    if loc == here {
                    } else if cur.contains_key(loc) {
                    } else {
                        let t = choose|t: int| 0 <= t < taken.len() && #[trigger] taken[t] == gen[loc];
                        assert(taken2[t] == gen[loc]);
                    }
                }
                assert forall|t: int| 0 <= t < taken2.len() implies gen.contains_key(
                    (#[trigger] taken2[t]).starting_char,
                ) && gen[taken2[t].starting_char] == taken2[t]
                    && !self.matches_this_gen@.contains_key(taken2[t].starting_char) by {
                    if t < taken.len() {
                        assert(taken2[t] == taken[t]);
                    }
                }
                taken = taken2;
            }
        }
        let ghost found = matches@;
        let sorted = sort_matches(matches);
        proof {
            lemma_sorted_distinct_is_strict(found, sorted@);
            suffix_trie.lemma_view();
            assert forall|mt: Match| sorted@.contains(mt) <==> is_fuzzy_match(
                suffix_trie@,
                pattern@,
                ignored,
                ci,
                max_errors,
                mt,
            ) by {
                vstd::seq_lib::to_multiset_contains(found, mt);
                vstd::seq_lib::to_multiset_contains(sorted@, mt);
                if found.contains(mt) {
                    let t = choose|t: int| 0 <= t < found.len() && found[t] == mt;
                    assert(is_fuzzy_match(
                        suffix_trie.docs(),
                        pattern@,
                        ignored,
                        ci,
                        max_errors,
                        found[t],
                    ));
                }
                if is_fuzzy_match(suffix_trie@, pattern@, ignored, ci, max_errors, mt) {
                    assert forall|loc: CharLocation| #[trigger]
                        gen.contains_key(loc) implies exists|t: int|
                        0 <= t < taken.len() && #[trigger] taken[t] == gen[loc] by {
                        assert(!self.matches_this_gen@.contains_key(loc));
                    }
                    suffix_trie.lemma_gather_all(base, pattern@, gen, taken, mt);
                }
            }
        }
        sorted
    }
}

impl SuffixTrie {
    /// Every span that the transliterated pattern matches within
    /// `max_errors` errors, where the characters of
    /// `ignored_characters` match any character and, on demand, case
    /// does not count. A pattern whose characters all lie below U+007F
    /// is its own transliteration. A pattern without characters matches
    /// nothing.
    pub fn find_edit_distance_ignore(
        &self,
        pattern: &str,
        max_errors: usize,
        ignored_characters: HashMap<char, bool>,
        case_insensitive: bool,
    ) -> (matches: Vec<Match>)
        requires
            self.wf(),
        ensures
            pattern@.len() == 0 || transliteration(pattern@).len() == 0 ==> matches@.len() == 0,
            matches_strictly_ascending(matches@),
            forall|m: Match|
                matches@.contains(m) <==> is_fuzzy_match(
                    self@,
                    transliteration(pattern@),
                    ignored_characters@.dom(),
                    case_insensitive,
                    max_errors,
                    m,
                ),
            is_plain(pattern@) ==> forall|m: Match|
                matches@.contains(m) <==> is_fuzzy_match(
                    self@,
                    pattern@,
                    ignored_characters@.dom(),
                    case_insensitive,
                    max_errors,
                    m,
                ),
    {
        let config = MatcherConfig { max_errors, ignored_characters, case_insensitive };
        let mut matcher = SuffixTrieEditMatcher::new(config);
        let chars = chars_of(pattern);
        let ascii_pattern = transliterate(&chars);
        matcher.find_edit_distance_ignore(self, &ascii_pattern)
    }

    /// Every span that the transliterated pattern matches within
    /// `max_errors` errors. A pattern whose characters all lie below
    /// U+007F is its own transliteration. A pattern without characters
    /// matches nothing.
    pub fn find_edit_distance(&self, pattern: &str, max_errors: usize) -> (matches: Vec<Match>)
        requires
            self.wf(),
        ensures
            pattern@.len() == 0 || transliteration(pattern@).len() == 0 ==> matches@.len() == 0,
            matches_strictly_ascending(matches@),
            forall|m: Match|
                matches@.contains(m) <==> is_fuzzy_match(
                    self@,
                    transliteration(pattern@),
                    Set::<char>::empty(),
                    false,
                    max_errors,
                    m,
                ),
            is_plain(pattern@) ==> forall|m: Match|
                matches@.contains(m) <==> is_fuzzy_match(
                    self@,
                    pattern@,
                    Set::<char>::empty(),
                    false,
                    max_errors,
                    m,
                ),
    {
        let ignored: HashMap<char, bool> = HashMap::new();
        proof {
            assert(ignored@.dom() =~= Set::<char>::empty());
        }
        self.find_edit_distance_ignore(pattern, max_errors, ignored, false)
    }
}

} // verus!
