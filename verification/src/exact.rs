//! Exact matching: a descent through the trie that follows, character by
//! character, every location whose text agrees with the pattern.

use crate::config::{chars_match_spec, MatcherConfig};
use crate::fuzzy::SuffixTrieEditMatcher;
use crate::hits::{agree, is_exact_match, lemma_agree_push, match_at};
use crate::locate::{lists_steps, CharLocation};
use crate::model::TrieModel;
use crate::normalize::{chars_of, is_plain, transliterate, transliteration};
use crate::record::{
    lemma_sorted_distinct_is_strict, matches_strictly_ascending, sort_matches, Leaf, Match,
};
use crate::trie::SuffixTrie;
use vstd::prelude::*;

verus! {

/// The leaf marker that a match reports.
pub open spec fn leaf_of(m: Match) -> Leaf {
    Leaf { index_in_str: m.index_in_str, text_index: m.text_index }
}

/// The locations of `steps` whose character matches `p`, in order.
pub open spec fn pick(
    ignored: Set<char>,
    case_insensitive: bool,
    p: char,
    steps: Seq<(char, CharLocation)>,
) -> Seq<CharLocation>
    decreases steps.len(),
{
    if steps.len() == 0 {
        Seq::empty()
    } else {
        let rest = pick(ignored, case_insensitive, p, steps.drop_last());
        if chars_match_spec(ignored, case_insensitive, p, steps.last().0) {
            rest.push(steps.last().1)
        } else {
            rest
        }
    }
}

/// What `pick` holds: each location of a step with a matching
/// character, once.
pub proof fn lemma_pick(
    ignored: Set<char>,
    case_insensitive: bool,
    p: char,
    steps: Seq<(char, CharLocation)>,
)
    requires
        forall|i: int, j: int|
            0 <= i < j < steps.len() ==> (#[trigger] steps[i]).1 != (#[trigger] steps[j]).1,
    ensures
        pick(ignored, case_insensitive, p, steps).no_duplicates(),
        forall|x: CharLocation|
            pick(ignored, case_insensitive, p, steps).contains(x) <==> exists|i: int|
                0 <= i < steps.len() && (#[trigger] steps[i]).1 == x && chars_match_spec(
                    ignored,
                    case_insensitive,
                    p,
                    steps[i].0,
                ),
    decreases steps.len(),
{
    let got = pick(ignored, case_insensitive, p, steps);
    if steps.len() > 0 {
        let front = steps.drop_last();
        let rest = pick(ignored, case_insensitive, p, front);
        lemma_pick(ignored, case_insensitive, p, front);
        let last = steps.last();
        let hit = chars_match_spec(ignored, case_insensitive, p, last.0);
        assert forall|x: CharLocation| got.contains(x) <==> exists|i: int|
            0 <= i < steps.len() && (#[trigger] steps[i]).1 == x && chars_match_spec(
                ignored,
                case_insensitive,
                p,
                steps[i].0,
            ) by {
            if got.contains(x) {
                let t = choose|t: int| 0 <= t < got.len() && got[t] == x;
                if hit && t == rest.len() {
                    assert(steps[steps.len() - 1].1 == x);
                } else {
                    assert(rest[t] == x);
                    assert(rest.contains(x));
                    let i = choose|i: int|
                        0 <= i < front.len() && (#[trigger] front[i]).1 == x && chars_match_spec(
                            ignored,
                            case_insensitive,
                            p,
                            front[i].0,
                        );
                    assert(steps[i].1 == x);
                }
            }
            if exists|i: int|
                0 <= i < steps.len() && (#[trigger] steps[i]).1 == x && chars_match_spec(
                    ignored,
                    case_insensitive,
                    p,
                    steps[i].0,
                ) {
                let i = choose|i: int|
                    0 <= i < steps.len() && (#[trigger] steps[i]).1 == x && chars_match_spec(
                        ignored,
                        case_insensitive,
                        p,
                        steps[i].0,
                    );
                if i == steps.len() - 1 {
                    assert(got[rest.len() as int] == x);
                } else {
                    assert(front[i].1 == x);
                    assert(rest.contains(x));
                    let t = choose|t: int| 0 <= t < rest.len() && rest[t] == x;
                    assert(got[t] == x);
                }
            }
        }
        if hit {
            assert forall|t: int| 0 <= t < rest.len() implies rest[t] != last.1 by {
                assert(rest.contains(rest[t]));
                let i = choose|i: int|
                    0 <= i < front.len() && (#[trigger] front[i]).1 == rest[t] && chars_match_spec(
                        ignored,
                        case_insensitive,
                        p,
                        front[i].0,
                    );
                assert(steps[i].1 != steps[steps.len() - 1].1);
            }
        }
    }
}

impl TrieModel {
    /// `loc` is a location of the trie.
    pub open spec fn ok_at(self, loc: CharLocation) -> bool {
        self.loc_ok(loc.node_index as int, loc.index_in_edge as int)
    }

    /// The text read on the way from the root to `loc`.
    pub open spec fn str_at(self, loc: CharLocation) -> Seq<char> {
        self.loc_string(loc.node_index as int, loc.index_in_edge as int)
    }

    /// The marker of `leaf` sits on `n` or below it.
    pub open spec fn under(self, n: int, leaf: Leaf) -> bool {
        self.is_record(leaf) && self.anc(n, self.home_of(leaf))
    }

    /// `front` holds, each once, the locations whose text agrees with
    /// `prefix`.
    pub open spec fn front_ok(
        self,
        ignored: Set<char>,
        case_insensitive: bool,
        prefix: Seq<char>,
        front: Seq<CharLocation>,
    ) -> bool {
        &&& forall|k: int|
            0 <= k < front.len() ==> self.ok_at(#[trigger] front[k]) && agree(
                ignored,
                case_insensitive,
                prefix,
                self.str_at(front[k]),
            )
        &&& forall|n: int, o: int|
            #![trigger self.loc_ok(n, o)]
            self.loc_ok(n, o) && agree(ignored, case_insensitive, prefix, self.loc_string(n, o))
                ==> front.contains(CharLocation { node_index: n as usize, index_in_edge: o as usize })
        &&& front.no_duplicates()
    }

    /// The text of `x` is the text of one of the first `a` locations of
    /// `front` and one more character.
    pub open spec fn came_from(self, front: Seq<CharLocation>, a: int, x: CharLocation) -> bool {
        exists|k: int| 0 <= k < a && self.str_at(x).drop_last() == self.str_at(#[trigger] front[k])
    }

    /// `next` holds, each once, the locations one matching character
    /// after the first `a` locations of `front`.
    pub open spec fn part_ok(
        self,
        ignored: Set<char>,
        case_insensitive: bool,
        prefix: Seq<char>,
        p: char,
        front: Seq<CharLocation>,
        a: int,
        next: Seq<CharLocation>,
    ) -> bool {
        &&& forall|t: int|
            0 <= t < next.len() ==> self.ok_at(#[trigger] next[t]) && next[t].node_index > 0
                && agree(ignored, case_insensitive, prefix.push(p), self.str_at(next[t]))
                && self.came_from(front, a, next[t])
        &&& forall|n: int, o: int|
            #![trigger self.loc_ok(n, o)]
            self.loc_ok(n, o) && n > 0 && chars_match_spec(
                ignored,
                case_insensitive,
                p,
                self.loc_string(n, o).last(),
            ) && self.came_from(
                front,
                a,
                CharLocation { node_index: n as usize, index_in_edge: o as usize },
            ) ==> next.contains(CharLocation { node_index: n as usize, index_in_edge: o as usize })
        &&& next.no_duplicates()
    }

    /// Going through the locations after one more location of `front`
    /// keeps the next front in order.
    pub proof fn lemma_part_step(
        self,
        ignored: Set<char>,
        case_insensitive: bool,
        prefix: Seq<char>,
        p: char,
        front: Seq<CharLocation>,
        a: int,
        next: Seq<CharLocation>,
        steps: Seq<(char, CharLocation)>,
    )
        requires
            self.inv(),
            self.nodes.len() <= usize::MAX,
            self.buf.len() <= usize::MAX,
            0 <= a < front.len(),
            self.front_ok(ignored, case_insensitive, prefix, front),
            self.part_ok(ignored, case_insensitive, prefix, p, front, a, next),
            lists_steps(
                self,
                front[a].node_index as int,
                front[a].index_in_edge as int,
                steps,
            ),
        ensures
            self.part_ok(
                ignored,
                case_insensitive,
                prefix,
                p,
                front,
                a + 1,
                next + pick(ignored, case_insensitive, p, steps),
            ),
    {
        let new = pick(ignored, case_insensitive, p, steps);
        let all = next + new;
        let here = front[a];
        let hn = here.node_index as int;
        let ho = here.index_in_edge as int;
        lemma_pick(ignored, case_insensitive, p, steps);
        assert(self.ok_at(here));
        // what is known of each new location
        assert forall|t: int| 0 <= t < new.len() implies self.ok_at(#[trigger] new[t])
            && new[t].node_index > 0 && agree(
            ignored,
            case_insensitive,
            prefix.push(p),
            self.str_at(new[t]),
        ) && self.str_at(new[t]).drop_last() == self.str_at(here) by {
            let x = new[t];
            assert(new.contains(x));
            let i = choose|i: int|
                0 <= i < steps.len() && (#[trigger] steps[i]).1 == x && chars_match_spec(
                    ignored,
                    case_insensitive,
                    p,
                    steps[i].0,
                );
            assert(self.steps_to(hn, ho, steps[i].0, x.node_index as int, x.index_in_edge as int));
            lemma_agree_push(
                ignored,
                case_insensitive,
                prefix,
                self.str_at(here),
                p,
                steps[i].0,
            );
            assert(self.str_at(here).push(steps[i].0).drop_last() =~= self.str_at(here));
            self.lemma_loc_bounds(x.node_index as int, x.index_in_edge as int);
            self.lemma_loc_bounds(hn, ho);
        }
        assert forall|t: int| 0 <= t < all.len() implies self.ok_at(#[trigger] all[t])
            && all[t].node_index > 0 && agree(
            ignored,
            case_insensitive,
            prefix.push(p),
            self.str_at(all[t]),
        ) && self.came_from(front, a + 1, all[t]) by {
            if t < next.len() {
                assert(all[t] == next[t]);
                let k = choose|k: int|
                    0 <= k < a && self.str_at(next[t]).drop_last() == self.str_at(
                        #[trigger] front[k],
                    );
                assert(self.str_at(all[t]).drop_last() == self.str_at(front[k]));
            } else {
                assert(all[t] == new[t - next.len()]);
                assert(self.str_at(all[t]).drop_last() == self.str_at(front[a]));
            }
        }
        assert forall|n: int, o: int|
            #![trigger self.loc_ok(n, o)]
            self.loc_ok(n, o) && n > 0 && chars_match_spec(
                ignored,
                case_insensitive,
                p,
                self.loc_string(n, o).last(),
            ) && self.came_from(
                front,
                a + 1,
                CharLocation { node_index: n as usize, index_in_edge: o as usize },
            ) implies all.contains(
            CharLocation { node_index: n as usize, index_in_edge: o as usize },
        ) by {
            let x = CharLocation { node_index: n as usize, index_in_edge: o as usize };
            self.lemma_loc_bounds(n, o);
            self.lemma_node_bounds(n);
            let k = choose|k: int|
                0 <= k < a + 1 && self.str_at(x).drop_last() == self.str_at(#[trigger] front[k]);
            if k < a {
                assert(self.came_from(front, a, x));
                assert(next.contains(x));
                let t = choose|t: int| 0 <= t < next.len() && next[t] == x;
                assert(all[t] == x);
            } else {
                let i = choose|i: int| 0 <= i < steps.len() && (#[trigger] steps[i]).1 == x;
                assert(self.steps_to(hn, ho, steps[i].0, n, o));
                assert(self.loc_string(n, o).last() == steps[i].0);
                assert(new.contains(x));
                let t = choose|t: int| 0 <= t < new.len() && new[t] == x;
                assert(all[next.len() + t] == x);
            }
        }
        assert forall|s: int, t: int| 0 <= s < next.len() && 0 <= t < new.len() implies next[s]
            != new[t] by {
            if next[s] == new[t] {
                let k = choose|k: int|
                    0 <= k < a && self.str_at(next[s]).drop_last() == self.str_at(
                        #[trigger] front[k],
                    );
                assert(self.ok_at(front[k]));
                self.lemma_loc_unique(
                    front[k].node_index as int,
                    front[k].index_in_edge as int,
                    hn,
                    ho,
                );
                assert(front[k] == front[a]);
            }
        }
        vstd::seq_lib::lemma_no_dup_in_concat(next, new);
    }

    /// Once all of `front` is gone through, the locations found make up
    /// the front for the longer prefix.
    pub proof fn lemma_part_done(
        self,
        ignored: Set<char>,
        case_insensitive: bool,
        prefix: Seq<char>,
        p: char,
        front: Seq<CharLocation>,
        next: Seq<CharLocation>,
    )
        requires
            self.inv(),
            self.nodes.len() <= usize::MAX,
            self.buf.len() <= usize::MAX,
            self.front_ok(ignored, case_insensitive, prefix, front),
            self.part_ok(ignored, case_insensitive, prefix, p, front, front.len() as int, next),
        ensures
            self.front_ok(ignored, case_insensitive, prefix.push(p), next),
    {
        assert forall|n: int, o: int|
            #![trigger self.loc_ok(n, o)]
            self.loc_ok(n, o) && agree(
                ignored,
                case_insensitive,
                prefix.push(p),
                self.loc_string(n, o),
            ) implies next.contains(
            CharLocation { node_index: n as usize, index_in_edge: o as usize },
        ) by {
            let x = CharLocation { node_index: n as usize, index_in_edge: o as usize };
            let s = self.loc_string(n, o);
            self.lemma_loc_bounds(n, o);
            self.lemma_node_bounds(n);
            assert(s.len() == prefix.len() + 1);
            self.lemma_loc_parent(n, o);
            let (pn, po) = self.loc_parent(n, o);
            assert(s =~= s.drop_last().push(s.last()));
            lemma_agree_push(ignored, case_insensitive, prefix, s.drop_last(), p, s.last());
            let parent = CharLocation { node_index: pn as usize, index_in_edge: po as usize };
            self.lemma_loc_bounds(pn, po);
            self.lemma_node_bounds(pn);
            assert(parent.node_index as int == pn && parent.index_in_edge as int == po);
            assert(x.node_index as int == n && x.index_in_edge as int == o);
            assert(front.contains(parent));
            let k = choose|k: int| 0 <= k < front.len() && front[k] == parent;
            assert(self.str_at(x).drop_last() == self.str_at(front[k]));
            assert(self.came_from(front, front.len() as int, x));
        }
    }
}

impl SuffixTrie {
    /// What the matches found so far are while the final locations are
    /// gone through: they report exactly the leaves below the first `a`
    /// locations, each once.
    pub open(crate) spec fn found_ok(
        &self,
        pattern: Seq<char>,
        ignored: Set<char>,
        case_insensitive: bool,
        front: Seq<CharLocation>,
        a: int,
        found: Seq<Match>,
    ) -> bool {
        &&& forall|t: int|
            0 <= t < found.len() ==> is_exact_match(
                self.docs(),
                pattern,
                ignored,
                case_insensitive,
                #[trigger] found[t],
            ) && self.below_some(front, a, leaf_of(found[t]))
        &&& forall|m: Match|
            #![trigger found.contains(m)]
            is_exact_match(self.docs(), pattern, ignored, case_insensitive, m) && self.below_some(
                front,
                a,
                leaf_of(m),
            ) ==> found.contains(m)
        &&& forall|s: int, t: int|
            0 <= s < t < found.len() ==> leaf_of(#[trigger] found[s]) != leaf_of(#[trigger] found[t])
    }

    /// The leaf lies below one of the first `a` locations of `front`.
    pub open(crate) spec fn below_some(&self, front: Seq<CharLocation>, a: int, leaf: Leaf) -> bool {
        exists|k: int| 0 <= k < a && self.model().under((#[trigger] front[k]).node_index as int, leaf)
    }

    /// A leaf below a location whose text agrees with the pattern marks
    /// an exact occurrence.
    pub(crate) proof fn lemma_leaf_is_match(
        &self,
        pattern: Seq<char>,
        ignored: Set<char>,
        case_insensitive: bool,
        loc: CharLocation,
        leaf: Leaf,
    )
        requires
            self.wf(),
            0 < pattern.len() <= usize::MAX,
            self.model().ok_at(loc),
            agree(ignored, case_insensitive, pattern, self.model().str_at(loc)),
            self.model().under(loc.node_index as int, leaf),
        ensures
            self.holds(leaf),
            leaf.index_in_str + pattern.len() <= usize::MAX,
            is_exact_match(
                self.docs(),
                pattern,
                ignored,
                case_insensitive,
                match_at(
                    self.docs(),
                    leaf.text_index,
                    leaf.index_in_str,
                    pattern.len() as usize,
                    0,
                ),
            ),
            self.model().str_at(loc) == self.docs()[leaf.text_index as int].span(
                leaf.index_in_str as int,
                pattern.len() as int,
            ),
    {
        self.lemma_wf();
        self.lemma_view();
        self.lemma_holds(leaf);
        let m = self.model();
        let d = leaf.text_index as int;
        let pos = leaf.index_in_str as int;
        let h = m.home_of(leaf);
        let n = loc.node_index as int;
        let o = loc.index_in_edge as int;
        assert(m.record_ok(d, pos));
        m.lemma_loc_prefix(n, o, h);
        m.lemma_loc_bounds(n, o);
        m.lemma_node_bounds(h);
        let doc = self.docs()[d];
        let e = doc.suffix_end(pos);
        let len = pattern.len() as int;
        assert(m.label(h) == doc.text().subrange(pos, e));
        assert(m.str_at(loc) =~= doc.span(pos, len)) by {
            assert(m.str_at(loc) == m.label(h).subrange(0, len)) by {
                assert(m.str_at(loc) =~= m.label(h).subrange(0, len));
            }
            assert(doc.text().subrange(pos, e).subrange(0, len) =~= doc.text().subrange(
                pos,
                pos + len,
            ));
        }
    }

    /// An exact occurrence is marked by a leaf below one of the
    /// locations whose text agrees with the pattern.
    pub(crate) proof fn lemma_match_has_leaf(
        &self,
        pattern: Seq<char>,
        ignored: Set<char>,
        case_insensitive: bool,
        front: Seq<CharLocation>,
        mt: Match,
    )
        requires
            self.wf(),
            self.model().front_ok(ignored, case_insensitive, pattern, front),
            is_exact_match(self.docs(), pattern, ignored, case_insensitive, mt),
        ensures
            self.below_some(front, front.len() as int, leaf_of(mt)),
    {
        self.lemma_wf();
        self.lemma_view();
        let leaf = leaf_of(mt);
        self.lemma_holds(leaf);
        let m = self.model();
        let d = leaf.text_index as int;
        let pos = leaf.index_in_str as int;
        let h = m.home_of(leaf);
        let len = pattern.len() as int;
        assert(m.record_ok(d, pos));
        m.lemma_node_bounds(h);
        let loc = m.lemma_loc_on_path(h, len);
        let doc = self.docs()[d];
        let e = doc.suffix_end(pos);
        assert(m.loc_string(loc.0, loc.1) =~= doc.span(pos, len)) by {
            assert(m.label(h) == doc.text().subrange(pos, e));
            assert(m.buf.subrange(m.begin(h), m.begin(h) + len) =~= m.label(h).subrange(0, len));
            assert(doc.text().subrange(pos, e).subrange(0, len) =~= doc.text().subrange(
                pos,
                pos + len,
            ));
        }
        let x = CharLocation { node_index: loc.0 as usize, index_in_edge: loc.1 as usize };
        m.lemma_loc_bounds(loc.0, loc.1);
        assert(front.contains(x));
        let k = choose|k: int| 0 <= k < front.len() && front[k] == x;
        assert(m.under(front[k].node_index as int, leaf));
    }

    /// Adding the matches for the leaves below one more location keeps
    /// the matches found in order.
    pub(crate) proof fn lemma_found_step(
        &self,
        pattern: Seq<char>,
        ignored: Set<char>,
        case_insensitive: bool,
        front: Seq<CharLocation>,
        a: int,
        found: Seq<Match>,
        leaves: Seq<Leaf>,
        more: Seq<Match>,
    )
        requires
            self.wf(),
            0 < pattern.len() <= usize::MAX,
            0 <= a < front.len(),
            self.model().front_ok(ignored, case_insensitive, pattern, front),
            self.found_ok(pattern, ignored, case_insensitive, front, a, found),
            crate::record::leaves_strictly_ascending(leaves),
            forall|leaf: Leaf|
                leaves.contains(leaf) <==> self.model().under(front[a].node_index as int, leaf),
            more.len() == leaves.len(),
            forall|i: int|
                0 <= i < leaves.len() ==> #[trigger] more[i] == match_at(
                    self.docs(),
                    leaves[i].text_index,
                    leaves[i].index_in_str,
                    pattern.len() as usize,
                    0,
                ),
        ensures
            self.found_ok(pattern, ignored, case_insensitive, front, a + 1, found + more),
    {
        let m = self.model();
        let all = found + more;
        let here = front[a];
        self.lemma_wf();
        assert(m.ok_at(here));
        assert forall|i: int| 0 <= i < more.len() implies is_exact_match(
            self.docs(),
            pattern,
            ignored,
            case_insensitive,
            #[trigger] more[i],
        ) && leaf_of(more[i]) == leaves[i] && m.under(here.node_index as int, leaves[i]) by {
            assert(leaves.contains(leaves[i]));
            self.lemma_leaf_is_match(pattern, ignored, case_insensitive, here, leaves[i]);
        }
        assert forall|t: int| 0 <= t < all.len() implies is_exact_match(
            self.docs(),
            pattern,
            ignored,
            case_insensitive,
            #[trigger] all[t],
        ) && self.below_some(front, a + 1, leaf_of(all[t])) by {
            if t < found.len() {
                assert(all[t] == found[t]);
                let k = choose|k: int|
                    0 <= k < a && m.under((#[trigger] front[k]).node_index as int, leaf_of(found[t]));
                assert(m.under(front[k].node_index as int, leaf_of(all[t])));
            } else {
                assert(all[t] == more[t - found.len()]);
                assert(m.under(front[a].node_index as int, leaf_of(all[t])));
            }
        }
        assert forall|mt: Match|
            #![trigger all.contains(mt)]
            is_exact_match(self.docs(), pattern, ignored, case_insensitive, mt) && self.below_some(
                front,
                a + 1,
                leaf_of(mt),
            ) implies all.contains(mt) by {
            let k = choose|k: int|
                0 <= k < a + 1 && m.under((#[trigger] front[k]).node_index as int, leaf_of(mt));
            if k < a {
                assert(self.below_some(front, a, leaf_of(mt)));
                assert(found.contains(mt));
                let t = choose|t: int| 0 <= t < found.len() && found[t] == mt;
                assert(all[t] == mt);
            } else {
                assert(leaves.contains(leaf_of(mt)));
                let i = choose|i: int| 0 <= i < leaves.len() && leaves[i] == leaf_of(mt);
                assert(more[i] == mt);
                assert(all[found.len() + i] == mt);
            }
        }
        assert forall|s: int, t: int| 0 <= s < t < all.len() implies leaf_of(#[trigger] all[s])
            != leaf_of(#[trigger] all[t]) by {
            if t < found.len() {
                assert(all[s] == found[s] && all[t] == found[t]);
            } else if s >= found.len() {
                let i = s - found.len();
                let j = t - found.len();
                assert(all[s] == more[i] && all[t] == more[j]);
                assert(leaves[i].precedes(leaves[j]));
            } else {
                assert(all[s] == found[s]);
                let j = t - found.len();
                assert(all[t] == more[j]);
                if leaf_of(found[s]) == leaves[j] {
                    let leaf = leaves[j];
                    let k = choose|k: int|
                        0 <= k < a && m.under((#[trigger] front[k]).node_index as int, leaf);
                    assert(m.ok_at(front[k]));
                    self.lemma_leaf_is_match(pattern, ignored, case_insensitive, front[k], leaf);
                    self.lemma_leaf_is_match(pattern, ignored, case_insensitive, here, leaf);
                    m.lemma_loc_unique(
                        front[k].node_index as int,
                        front[k].index_in_edge as int,
                        here.node_index as int,
                        here.index_in_edge as int,
                    );
                    assert(front[k] == front[a]);
                }
            }
        }
    }

    /// Find all exact matches of the given pattern, after the pattern's
    /// transliteration. A pattern whose characters all lie below U+007F
    /// is its own transliteration. A pattern without characters is
    /// found nowhere.
    pub fn find_exact(&self, pattern: &str, case_insensitive: bool) -> (matches: Vec<Match>)
        requires
            self.wf(),
        ensures
            pattern@.len() == 0 || transliteration(pattern@).len() == 0 ==> matches@.len() == 0,
            matches_strictly_ascending(matches@),
            forall|m: Match|
                matches@.contains(m) <==> is_exact_match(
                    self@,
                    transliteration(pattern@),
                    Set::<char>::empty(),
                    case_insensitive,
                    m,
                ),
            is_plain(pattern@) ==> forall|m: Match|
                matches@.contains(m) <==> is_exact_match(
                    self@,
                    pattern@,
                    Set::<char>::empty(),
                    case_insensitive,
                    m,
                ),
    {
        let mut empty_config = MatcherConfig::exact();
        empty_config.case_insensitive = case_insensitive;
        let mut matcher = SuffixTrieEditMatcher::new(empty_config);
        let chars = chars_of(pattern);
        let ascii_pattern = transliterate(&chars);
        matcher.find_exact(self, &ascii_pattern)
    }
}

impl SuffixTrieEditMatcher {
    /// Every exact occurrence of the pattern in the indexed sentences,
    /// in ascending order. An occurrence is a span inside one sentence
    /// whose characters match those of the pattern one by one under
    /// `config`; its error count is 0. A pattern without characters is
    /// found nowhere.
    pub fn find_exact(&mut self, suffix_trie: &SuffixTrie, pattern: &Vec<char>) -> (matches:
        Vec<Match>)
        requires
            suffix_trie.wf(),
        ensures
            *final(self) == *old(self),
            pattern.len() == 0 ==> matches@.len() == 0,
            matches_strictly_ascending(matches@),
            forall|m: Match|
                matches@.contains(m) <==> is_exact_match(
                    suffix_trie@,
                    pattern@,
                    old(self).config.ignored(),
                    old(self).config.case_insensitive,
                    m,
                ),
    {
        if pattern.len() == 0 {
            return Vec::new();
        }
        let ghost m = suffix_trie.model();
        let ghost ignored = self.config.ignored();
        let ghost ci = self.config.case_insensitive;
        proof {
            suffix_trie.lemma_wf();
            suffix_trie.lemma_view();
        }
        let mut frontier: Vec<CharLocation> = Vec::new();
        frontier.push(CharLocation { node_index: 0, index_in_edge: 0 });
        proof {
            let root = CharLocation { node_index: 0, index_in_edge: 0 };
            m.lemma_loc_bounds(0, 0);
            assert(pattern@.take(0) =~= Seq::<char>::empty());
            assert(frontier@[0] == root);
            assert forall|n: int, o: int|
                #![trigger m.loc_ok(n, o)]
                m.loc_ok(n, o) && agree(ignored, ci, pattern@.take(0), m.loc_string(n, o)) implies frontier@.contains(

                CharLocation { node_index: n as usize, index_in_edge: o as usize },
            ) by {
                m.lemma_loc_bounds(n, o);
                m.lemma_node_bounds(n);
            }
        }
        let mut i: usize = 0;
        while i < pattern.len()
            invariant
                suffix_trie.wf(),
                suffix_trie.built(),
                pattern.len() > 0,
                m == suffix_trie.model(),
                *self == *old(self),
                ignored == self.config.ignored(),
                ci == self.config.case_insensitive,
                i <= pattern.len(),
                m.front_ok(ignored, ci, pattern@.take(i as int), frontier@),
            decreases pattern.len() - i,
        {
            let c: char = pattern[i];
            let mut next: Vec<CharLocation> = Vec::new();
            let mut a: usize = 0;
            while a < frontier.len()
                invariant
                    suffix_trie.built(),
                    m == suffix_trie.model(),
                    *self == *old(self),
                ignored == self.config.ignored(),
                    ci == self.config.case_insensitive,
                    i < pattern.len(),
                    c == pattern[i as int],
                    a <= frontier.len(),
                    m.front_ok(ignored, ci, pattern@.take(i as int), frontier@),
                    m.part_ok(ignored, ci, pattern@.take(i as int), c, frontier@, a as int, next@),
                decreases frontier.len() - a,
            {
                let steps = suffix_trie.generation_after_char_dict(frontier[a]);
                let ghost before = next@;
                let mut j: usize = 0;
                while j < steps.len()
                    invariant
                        j <= steps.len(),
                        *self == *old(self),
                ignored == self.config.ignored(),
                        ci == self.config.case_insensitive,
                        next@ == before + pick(ignored, ci, c, steps@.take(j as int)),
                    decreases steps.len() - j,
                {
                    proof {
                        assert(steps@.take(j as int + 1).drop_last() =~= steps@.take(j as int));
                    }
                    if self.config.chars_match(&c, &steps[j].0) {
                        next.push(steps[j].1);
                    }
                    proof {
                        assert(next@ =~= before + pick(ignored, ci, c, steps@.take(j as int + 1)));
                    }
                    j = j + 1;
                }
                proof {
                    assert(steps@.take(steps.len() as int) =~= steps@);
                    assert(m.buf.len() == suffix_trie.str_storage.len());
                    assert(m.nodes.len() == suffix_trie.node_storage.len());
                    m.lemma_part_step(
                        ignored,
                        ci,
                        pattern@.take(i as int),
                        c,
                        frontier@,
                        a as int,
                        before,
                        steps@,
                    );
                }
                a = a + 1;
            }
            proof {
                assert(m.buf.len() == suffix_trie.str_storage.len());
                assert(m.nodes.len() == suffix_trie.node_storage.len());
                m.lemma_part_done(ignored, ci, pattern@.take(i as int), c, frontier@, next@);
                assert(pattern@.take(i as int + 1) =~= pattern@.take(i as int).push(c));
            }
            frontier = next;
            i = i + 1;
        }
        proof {
            assert(pattern@.take(pattern.len() as int) =~= pattern@);
        }
        let mut matches: Vec<Match> = Vec::new();
        let mut a: usize = 0;
        while a < frontier.len()
            invariant
                suffix_trie.wf(),
                suffix_trie.built(),
                pattern.len() > 0,
                m == suffix_trie.model(),
                a <= frontier.len(),
                m.front_ok(ignored, ci, pattern@, frontier@),
                suffix_trie.found_ok(pattern@, ignored, ci, frontier@, a as int, matches@),
            decreases frontier.len() - a,
        {
            proof {
                assert(m.ok_at(frontier@[a as int]));
            }
            let leaves = suffix_trie.get_all_leaf_descendants(frontier[a].node_index);
            proof {
                assert(pattern@.len() == pattern.len());
                assert forall|k: int| 0 <= k < leaves.len() implies suffix_trie.holds(#[trigger] leaves[k])
                    && leaves[k].index_in_str + pattern.len() <= usize::MAX by {
                    assert(leaves@.contains(leaves[k]));
                    suffix_trie.lemma_leaf_is_match(pattern@, ignored, ci, frontier@[a as int], leaves[k]);
                }
            }
            let ghost leaf_list = leaves@;
            let more = suffix_trie.match_array_from_leaves(leaves, pattern.len(), 0);
            let ghost before = matches@;
            let mut j: usize = 0;
            while j < more.len()
                invariant
                    j <= more.len(),
                    matches@ == before + more@.take(j as int),
                decreases more.len() - j,
            {
                matches.push(more[j]);
                proof {
                    assert(more@.take(j as int + 1) =~= more@.take(j as int).push(more@[j as int]));
                    assert(matches@ =~= before + more@.take(j as int + 1));
                }
                j = j + 1;
            }
            proof {
                assert(more@.take(more.len() as int) =~= more@);
                suffix_trie.lemma_view();
                assert(pattern@.len() == pattern.len());
                assert forall|i: int| 0 <= i < leaf_list.len() implies #[trigger] more@[i]
                    == match_at(
                    suffix_trie.docs(),
                    leaf_list[i].text_index,
                    leaf_list[i].index_in_str,
                    pattern@.len() as usize,
                    0,
                ) by {}
                suffix_trie.lemma_found_step(
                    pattern@,
                    ignored,
                    ci,
                    frontier@,
                    a as int,
                    before,
                    leaf_list,
                    more@,
                );
            }
            a = a + 1;
        }
        let ghost found = matches@;
        let sorted = sort_matches(matches);
        proof {
            assert forall|s: int, t: int| 0 <= s < t < found.len() implies (#[trigger] found[s]).key()
                != (#[trigger] found[t]).key() by {
                assert(leaf_of(found[s]) != leaf_of(found[t]));
            }
            lemma_sorted_distinct_is_strict(found, sorted@);
            assert forall|mt: Match| sorted@.contains(mt) <==> is_exact_match(
                suffix_trie@,
                pattern@,
                ignored,
                ci,
                mt,
            ) by {
                vstd::seq_lib::to_multiset_contains(found, mt);
                vstd::seq_lib::to_multiset_contains(sorted@, mt);
                if found.contains(mt) {
                    let t = choose|t: int| 0 <= t < found.len() && found[t] == mt;
                    assert(is_exact_match(suffix_trie.docs(), pattern@, ignored, ci, found[t]));
                }
                if is_exact_match(suffix_trie@, pattern@, ignored, ci, mt) {
                    suffix_trie.lemma_match_has_leaf(pattern@, ignored, ci, frontier@, mt);
                }
            }
        }
        sorted
    }
}

} // verus!
