//! Why the generations of the approximate search hold, for every
//! location of the trie, the least number of errors.
//!
//! While one character of the pattern is read, partial matches wait in
//! two sets, the layer being gone through and the deeper layer that
//! collects the locations reached by leaving text out. `done` records
//! with how few errors each location was gone through so far.

use crate::distance::{dist, lemma_dist_split, lemma_match_cost_push, match_cost, sub_cost};
use crate::fuzzy::filed_after;
use crate::generation::WorkingMatch;
use crate::locate::{lists_steps, CharLocation};
use crate::model::TrieModel;
use vstd::prelude::*;

verus! {

/// The partial matches of one generation, by location.
pub type Generation = Map<CharLocation, WorkingMatch>;

/// The generation holds the location with at most `v` errors.
pub open spec fn le_at(gen: Generation, loc: CharLocation, v: int) -> bool {
    gen.contains_key(loc) && gen[loc].errors <= v
}

/// The location waits to be gone through, or was gone through, with at
/// most `v` errors.
pub open spec fn covered(
    layer: Generation,
    deeper: Generation,
    done: Map<CharLocation, int>,
    loc: CharLocation,
    v: int,
) -> bool {
    le_at(layer, loc, v) || le_at(deeper, loc, v) || (done.contains_key(loc) && done[loc] <= v)
}

/// What is known of the search while it reads one character.
pub struct Reading {
    pub ignored: Set<char>,
    pub case_insensitive: bool,
    pub max_errors: usize,
    /// The characters of the pattern read before.
    pub prefix: Seq<char>,
    /// The character being read.
    pub c: char,
}

/// The sets of partial matches while one character is read.
pub struct Drain {
    pub layer: Generation,
    pub deeper: Generation,
    pub next: Generation,
    pub done: Map<CharLocation, int>,
    /// The location being gone through, where its record in `done` was
    /// made for this very passage.
    pub busy: Option<CharLocation>,
    /// The locations after `busy` that were dealt with.
    pub seen: Set<CharLocation>,
    /// Whether leaving out the pattern's character at `busy` was dealt
    /// with.
    pub skipped: bool,
}

/// Filing a partial match keeps what the generation held, with no more
/// errors than before, and puts the match in where it is within the
/// budget.
pub proof fn lemma_filed_after(
    gen: Generation,
    max_errors: usize,
    errors: usize,
    extra: int,
    loc: CharLocation,
    length: usize,
)
    requires
        0 <= extra <= 1,
    ensures
        forall|x: CharLocation, v: int|
            le_at(gen, x, v) ==> #[trigger] le_at(
                filed_after(gen, max_errors, errors, extra, loc, length),
                x,
                v,
            ),
        errors + extra <= max_errors ==> le_at(
            filed_after(gen, max_errors, errors, extra, loc, length),
            loc,
            errors + extra,
        ),
        forall|x: CharLocation| #[trigger]
            filed_after(gen, max_errors, errors, extra, loc, length).contains_key(x) ==> {
                ||| (gen.contains_key(x) && filed_after(
                    gen,
                    max_errors,
                    errors,
                    extra,
                    loc,
                    length,
                )[x] == gen[x])
                ||| (x == loc && errors + extra <= max_errors && filed_after(
                    gen,
                    max_errors,
                    errors,
                    extra,
                    loc,
                    length,
                )[x].starting_char == loc && filed_after(
                    gen,
                    max_errors,
                    errors,
                    extra,
                    loc,
                    length,
                )[x].length == length && (filed_after(
                    gen,
                    max_errors,
                    errors,
                    extra,
                    loc,
                    length,
                )[x].errors == errors + extra || (gen.contains_key(x) && filed_after(
                    gen,
                    max_errors,
                    errors,
                    extra,
                    loc,
                    length,
                )[x].errors == gen[x].errors && gen[x].errors < errors + extra)))
            },
{
}

impl TrieModel {
    /// The buffer and the node list fit the machine's integers.
    pub open spec fn fits(self) -> bool {
        self.nodes.len() <= usize::MAX && self.buf.len() <= usize::MAX
    }

    /// The distance of the pattern to the text read up to the location.
    pub open spec fn dist_at(self, r: Reading, pattern: Seq<char>, loc: CharLocation) -> nat {
        dist(r.ignored, r.case_insensitive, pattern, self.str_at(loc))
    }

    /// The cost of laying the pattern along the text read up to the
    /// location, ending on the text's last character.
    pub open spec fn cost_at(self, r: Reading, pattern: Seq<char>, loc: CharLocation) -> Option<nat> {
        match_cost(r.ignored, r.case_insensitive, pattern, self.str_at(loc))
    }

    /// The cost at the location is known and within the error budget.
    pub open spec fn reachable(self, r: Reading, pattern: Seq<char>, loc: CharLocation) -> bool {
        self.ok_at(loc) && self.cost_at(r, pattern, loc) is Some && self.cost_at(
            r,
            pattern,
            loc,
        )->0 <= r.max_errors
    }

    /// `ch` is a location one character after `loc`.
    pub open spec fn is_kid(self, loc: CharLocation, ch: CharLocation) -> bool {
        self.ok_at(ch) && ch.node_index > 0 && self.str_at(ch).drop_last() == self.str_at(loc)
    }

    /// The generation holds exactly the locations within the error
    /// budget for the pattern, each with its cost.
    pub open spec fn gen_exact(self, r: Reading, pattern: Seq<char>, gen: Generation) -> bool {
        &&& self.states_ok(r.max_errors, gen)
        &&& forall|loc: CharLocation| #[trigger]
            gen.contains_key(loc) ==> self.cost_at(r, pattern, loc) == Some(gen[loc].errors as nat)
        &&& forall|loc: CharLocation| #[trigger]
            self.reachable(r, pattern, loc) ==> gen.contains_key(loc)
    }

    /// No partial match waiting has fewer errors than the distance of
    /// the prefix to the text of its location.
    pub open spec fn pend_sound(self, r: Reading, pend: Generation) -> bool {
        &&& self.states_ok(r.max_errors, pend)
        &&& forall|loc: CharLocation| #[trigger]
            pend.contains_key(loc) ==> pend[loc].errors >= self.dist_at(r, r.prefix, loc)
    }

    /// No partial match for the longer prefix has fewer errors than its
    /// cost.
    pub open spec fn next_sound(self, r: Reading, next: Generation) -> bool {
        &&& self.states_ok(r.max_errors, next)
        &&& forall|loc: CharLocation| #[trigger]
            next.contains_key(loc) ==> self.cost_at(r, r.prefix.push(r.c), loc) is Some
                && next[loc].errors >= self.cost_at(r, r.prefix.push(r.c), loc)->0
    }

    /// No location was gone through with fewer errors than its distance,
    /// nor with more than allowed.
    pub open spec fn done_sound(self, r: Reading, done: Map<CharLocation, int>) -> bool {
        forall|loc: CharLocation| #[trigger]
            done.contains_key(loc) ==> self.ok_at(loc) && self.dist_at(r, r.prefix, loc)
                <= done[loc] <= r.max_errors
    }

    /// Every location within the budget for the prefix is covered with
    /// its cost.
    pub open spec fn seeds_covered(self, r: Reading, d: Drain) -> bool {
        forall|loc: CharLocation| #[trigger]
            self.reachable(r, r.prefix, loc) ==> covered(
                d.layer,
                d.deeper,
                d.done,
                loc,
                self.cost_at(r, r.prefix, loc)->0 as int,
            )
    }

    /// The locations after a location gone through are covered with one
    /// error more.
    pub open spec fn closed(self, r: Reading, d: Drain) -> bool {
        forall|loc: CharLocation, ch: CharLocation|
            #![trigger d.done.contains_key(loc), self.is_kid(loc, ch)]
            d.done.contains_key(loc) && self.is_kid(loc, ch) && d.done[loc] + 1 <= r.max_errors && (
            d.busy == Some(loc) ==> d.seen.contains(ch)) ==> covered(
                d.layer,
                d.deeper,
                d.done,
                ch,
                d.done[loc] + 1,
            )
    }

    /// What follows from a location gone through is filed for the
    /// longer prefix.
    pub open spec fn fed(self, r: Reading, d: Drain) -> bool {
        &&& forall|loc: CharLocation| #[trigger]
            d.done.contains_key(loc) && d.done[loc] + 1 <= r.max_errors && (d.busy == Some(loc)
                ==> d.skipped) ==> le_at(d.next, loc, d.done[loc] + 1)
        &&& forall|loc: CharLocation, ch: CharLocation|
            #![trigger d.done.contains_key(loc), self.is_kid(loc, ch)]
            d.done.contains_key(loc) && self.is_kid(loc, ch) && d.done[loc] + sub_cost(
                r.ignored,
                r.case_insensitive,
                r.c,
                self.str_at(ch).last(),
            ) <= r.max_errors && (d.busy == Some(loc) ==> d.seen.contains(ch)) ==> le_at(
                d.next,
                ch,
                d.done[loc] + sub_cost(
                    r.ignored,
                    r.case_insensitive,
                    r.c,
                    self.str_at(ch).last(),
                ),
            )
    }

    /// What holds all the while one character is read.
    pub open spec fn drain_inv(self, r: Reading, d: Drain) -> bool {
        &&& self.pend_sound(r, d.layer)
        &&& self.pend_sound(r, d.deeper)
        &&& self.next_sound(r, d.next)
        &&& self.done_sound(r, d.done)
        &&& self.seeds_covered(r, d)
        &&& self.closed(r, d)
        &&& self.fed(r, d)
    }

    /// The partial match taken from the layer, as it is gone through.
    pub open spec fn taken_ok(self, r: Reading, d: Drain, w: WorkingMatch) -> bool {
        &&& self.state_ok(r.max_errors, w.starting_char, w)
        &&& w.errors >= self.dist_at(r, r.prefix, w.starting_char)
        &&& d.busy == Some(w.starting_char) ==> d.done.contains_key(w.starting_char)
            && d.done[w.starting_char] == w.errors
        &&& d.busy is Some ==> d.busy == Some(w.starting_char)
    }

    /// The generation that holds the root alone is exact for the empty
    /// pattern.
    pub proof fn lemma_first_generation(self, r: Reading, gen: Generation)
        requires
            self.inv(),
            gen == Map::<CharLocation, WorkingMatch>::empty().insert(
                CharLocation { node_index: 0, index_in_edge: 0 },
                WorkingMatch {
                    starting_char: CharLocation { node_index: 0, index_in_edge: 0 },
                    errors: 0,
                    length: 0,
                },
            ),
        ensures
            self.gen_exact(r, Seq::<char>::empty(), gen),
    {
        self.lemma_loc_bounds(0, 0);
        assert forall|loc: CharLocation| #[trigger]
            self.reachable(r, Seq::<char>::empty(), loc) implies gen.contains_key(loc) by {
            self.lemma_loc_bounds(loc.node_index as int, loc.index_in_edge as int);
            self.lemma_node_bounds(loc.node_index as int);
        }
    }

    /// At the start of a character the exact generation for the prefix
    /// waits as the first layer.
    pub proof fn lemma_drain_start(self, r: Reading, gen: Generation)
        requires
            self.inv(),
            self.gen_exact(r, r.prefix, gen),
        ensures
            self.drain_inv(
                r,
                Drain {
                    layer: gen,
                    deeper: Map::empty(),
                    next: Map::empty(),
                    done: Map::empty(),
                    busy: None,
                    seen: Set::empty(),
                    skipped: false,
                },
            ),
    {
        assert forall|loc: CharLocation| #[trigger] gen.contains_key(loc) implies gen[loc].errors
            >= self.dist_at(r, r.prefix, loc) by {
            lemma_dist_split(r.ignored, r.case_insensitive, r.prefix, self.str_at(loc));
        }
    }

    /// Taking a partial match from the layer.
    pub proof fn lemma_take(self, r: Reading, d: Drain, w: WorkingMatch) -> (after: Drain)
        requires
            self.inv(),
            self.drain_inv(r, d),
            d.busy is None,
            d.layer.contains_key(w.starting_char),
            d.layer[w.starting_char] == w,
        ensures
            self.drain_inv(r, after),
            self.taken_ok(r, after, w),
            after.layer == d.layer.remove(w.starting_char),
            after.deeper == d.deeper,
            after.next == d.next,
            after.seen == Set::<CharLocation>::empty(),
            !after.skipped,
    {
        let loc = w.starting_char;
        let e = w.errors as int;
        let better = !(d.done.contains_key(loc) && d.done[loc] <= e);
        let after = Drain {
            layer: d.layer.remove(loc),
            deeper: d.deeper,
            next: d.next,
            done: if better {
                d.done.insert(loc, e)
            } else {
                d.done
            },
            busy: if better {
                Some(loc)
            } else {
                None
            },
            seen: Set::empty(),
            skipped: false,
        };
        assert(self.state_ok(r.max_errors, loc, w));
        assert forall|x: CharLocation, v: int|
            covered(d.layer, d.deeper, d.done, x, v) implies #[trigger] covered(
            after.layer,
            after.deeper,
            after.done,
            x,
            v,
        ) by {}
        assert(self.seeds_covered(r, after)) by {
            assert forall|x: CharLocation| #[trigger]
                self.reachable(r, r.prefix, x) implies covered(
                after.layer,
                after.deeper,
                after.done,
                x,
                self.cost_at(r, r.prefix, x)->0 as int,
            ) by {
                assert(covered(
                    d.layer,
                    d.deeper,
                    d.done,
                    x,
                    self.cost_at(r, r.prefix, x)->0 as int,
                ));
            }
        }
        assert(self.closed(r, after)) by {
            assert forall|x: CharLocation, ch: CharLocation|
                #![trigger after.done.contains_key(x), self.is_kid(x, ch)]
                after.done.contains_key(x) && self.is_kid(x, ch) && after.done[x] + 1
                    <= r.max_errors && (after.busy == Some(x) ==> after.seen.contains(
                    ch,
                )) implies covered(
                after.layer,
                after.deeper,
                after.done,
                ch,
                after.done[x] + 1,
            ) by {
                assert(d.done.contains_key(x));
                assert(covered(d.layer, d.deeper, d.done, ch, d.done[x] + 1));
            }
        }
        assert(self.fed(r, after)) by {
            assert forall|x: CharLocation| #[trigger]
                after.done.contains_key(x) && after.done[x] + 1 <= r.max_errors && (after.busy
                    == Some(x) ==> after.skipped) implies le_at(
                after.next,
                x,
                after.done[x] + 1,
            ) by {
                assert(d.done.contains_key(x));
            }
            assert forall|x: CharLocation, ch: CharLocation|
                #![trigger after.done.contains_key(x), self.is_kid(x, ch)]
                after.done.contains_key(x) && self.is_kid(x, ch) && after.done[x] + sub_cost(
                    r.ignored,
                    r.case_insensitive,
                    r.c,
                    self.str_at(ch).last(),
                ) <= r.max_errors && (after.busy == Some(x) ==> after.seen.contains(
                    ch,
                )) implies le_at(
                after.next,
                ch,
                after.done[x] + sub_cost(
                    r.ignored,
                    r.case_insensitive,
                    r.c,
                    self.str_at(ch).last(),
                ),
            ) by {
                assert(d.done.contains_key(x));
            }
        }
        after
    }

    /// Filing the partial match that leaves out the character read.
    pub proof fn lemma_skip(self, r: Reading, d: Drain, w: WorkingMatch, next: Generation) -> (after:
        Drain)
        requires
            self.inv(),
            self.drain_inv(r, d),
            self.taken_ok(r, d, w),
            next == filed_after(d.next, r.max_errors, w.errors, 1, w.starting_char, w.length),
        ensures
            self.drain_inv(r, after),
            self.taken_ok(r, after, w),
            after == (Drain { next: next, skipped: true, ..d }),
    {
        let after = Drain { next: next, skipped: true, ..d };
        let loc = w.starting_char;
        lemma_filed_after(d.next, r.max_errors, w.errors, 1, loc, w.length);
        lemma_match_cost_push(r.ignored, r.case_insensitive, r.prefix, r.c, self.str_at(loc));
        assert(self.next_sound(r, next)) by {
            assert forall|x: CharLocation| #[trigger] next.contains_key(x) implies self.state_ok(
                r.max_errors,
                x,
                next[x],
            ) && self.cost_at(r, r.prefix.push(r.c), x) is Some && next[x].errors >= self.cost_at(
                r,
                r.prefix.push(r.c),
                x,
            )->0 by {
                if d.next.contains_key(x) {
                    assert(self.state_ok(r.max_errors, x, d.next[x]));
                }
            }
        }
        assert(self.fed(r, after)) by {
            assert forall|x: CharLocation| #[trigger]
                after.done.contains_key(x) && after.done[x] + 1 <= r.max_errors && (after.busy
                    == Some(x) ==> after.skipped) implies le_at(
                after.next,
                x,
                after.done[x] + 1,
            ) by {
                if d.busy == Some(x) {
                } else {
                    assert(le_at(d.next, x, d.done[x] + 1));
                }
            }
            assert forall|x: CharLocation, ch: CharLocation|
                #![trigger after.done.contains_key(x), self.is_kid(x, ch)]
                after.done.contains_key(x) && self.is_kid(x, ch) && after.done[x] + sub_cost(
                    r.ignored,
                    r.case_insensitive,
                    r.c,
                    self.str_at(ch).last(),
                ) <= r.max_errors && (after.busy == Some(x) ==> after.seen.contains(
                    ch,
                )) implies le_at(
                after.next,
                ch,
                after.done[x] + sub_cost(
                    r.ignored,
                    r.case_insensitive,
                    r.c,
                    self.str_at(ch).last(),
                ),
            ) by {
                assert(le_at(
                    d.next,
                    ch,
                    d.done[x] + sub_cost(
                        r.ignored,
                        r.case_insensitive,
                        r.c,
                        self.str_at(ch).last(),
                    ),
                ));
            }
        }
        after
    }

    /// Filing the partial matches that go on to the location `ch`, one
    /// character after the location gone through.
    pub proof fn lemma_child(
        self,
        r: Reading,
        d: Drain,
        w: WorkingMatch,
        x: char,
        ch: CharLocation,
        next: Generation,
        deeper: Generation,
    ) -> (after: Drain)
        requires
            self.inv(),
            self.fits(),
            self.drain_inv(r, d),
            self.taken_ok(r, d, w),
            self.steps_to(
                w.starting_char.node_index as int,
                w.starting_char.index_in_edge as int,
                x,
                ch.node_index as int,
                ch.index_in_edge as int,
            ),
            next == filed_after(
                d.next,
                r.max_errors,
                w.errors,
                sub_cost(r.ignored, r.case_insensitive, r.c, x) as int,
                ch,
                (w.length + 1) as usize,
            ),
            deeper == filed_after(
                d.deeper,
                r.max_errors,
                w.errors,
                1,
                ch,
                (w.length + 1) as usize,
            ),
        ensures
            self.drain_inv(r, after),
            self.taken_ok(r, after, w),
            after == (Drain { next: next, deeper: deeper, seen: d.seen.insert(ch), ..d }),
    {
        let after = Drain { next: next, deeper: deeper, seen: d.seen.insert(ch), ..d };
        let loc = w.starting_char;
        let sub = sub_cost(r.ignored, r.case_insensitive, r.c, x);
        let len1 = (w.length + 1) as usize;
        self.lemma_loc_bounds(ch.node_index as int, ch.index_in_edge as int);
        self.lemma_loc_bounds(loc.node_index as int, loc.index_in_edge as int);
        self.lemma_node_bounds(ch.node_index as int);
        let t = self.str_at(ch);
        assert(t.drop_last() =~= self.str_at(loc));
        assert(t.last() == x);
        assert(ch.node_index > 0);
        lemma_filed_after(d.next, r.max_errors, w.errors, sub as int, ch, len1);
        lemma_filed_after(d.deeper, r.max_errors, w.errors, 1, ch, len1);
        lemma_match_cost_push(r.ignored, r.case_insensitive, r.prefix, r.c, t);
        lemma_dist_split(r.ignored, r.case_insensitive, r.prefix, t);
        assert(self.next_sound(r, next)) by {
            assert forall|y: CharLocation| #[trigger] next.contains_key(y) implies self.state_ok(
                r.max_errors,
                y,
                next[y],
            ) && self.cost_at(r, r.prefix.push(r.c), y) is Some && next[y].errors >= self.cost_at(
                r,
                r.prefix.push(r.c),
                y,
            )->0 by {
                if d.next.contains_key(y) {
                    assert(self.state_ok(r.max_errors, y, d.next[y]));
                }
            }
        }
        assert(self.pend_sound(r, deeper)) by {
            assert forall|y: CharLocation| #[trigger] deeper.contains_key(y) implies self.state_ok(
                r.max_errors,
                y,
                deeper[y],
            ) && deeper[y].errors >= self.dist_at(r, r.prefix, y) by {
                if d.deeper.contains_key(y) {
                    assert(self.state_ok(r.max_errors, y, d.deeper[y]));
                }
            }
        }
        assert forall|y: CharLocation, v: int|
            covered(d.layer, d.deeper, d.done, y, v) implies #[trigger] covered(
            after.layer,
            after.deeper,
            after.done,
            y,
            v,
        ) by {}
        assert(self.seeds_covered(r, after)) by {
            assert forall|y: CharLocation| #[trigger]
                self.reachable(r, r.prefix, y) implies covered(
                after.layer,
                after.deeper,
                after.done,
                y,
                self.cost_at(r, r.prefix, y)->0 as int,
            ) by {
                assert(covered(
                    d.layer,
                    d.deeper,
                    d.done,
                    y,
                    self.cost_at(r, r.prefix, y)->0 as int,
                ));
            }
        }
        assert(self.closed(r, after)) by {
            assert forall|y: CharLocation, z: CharLocation|
                #![trigger after.done.contains_key(y), self.is_kid(y, z)]
                after.done.contains_key(y) && self.is_kid(y, z) && after.done[y] + 1
                    <= r.max_errors && (after.busy == Some(y) ==> after.seen.contains(
                    z,
                )) implies covered(
                after.layer,
                after.deeper,
                after.done,
                z,
                after.done[y] + 1,
            ) by {
                if d.busy == Some(y) && z == ch {
                } else {
                    assert(covered(d.layer, d.deeper, d.done, z, d.done[y] + 1));
                }
            }
        }
        assert(self.fed(r, after)) by {
            assert forall|y: CharLocation| #[trigger]
                after.done.contains_key(y) && after.done[y] + 1 <= r.max_errors && (after.busy
                    == Some(y) ==> after.skipped) implies le_at(
                after.next,
                y,
                after.done[y] + 1,
            ) by {
                assert(le_at(d.next, y, d.done[y] + 1));
            }
            assert forall|y: CharLocation, z: CharLocation|
                #![trigger after.done.contains_key(y), self.is_kid(y, z)]
                after.done.contains_key(y) && self.is_kid(y, z) && after.done[y] + sub_cost(
                    r.ignored,
                    r.case_insensitive,
                    r.c,
                    self.str_at(z).last(),
                ) <= r.max_errors && (after.busy == Some(y) ==> after.seen.contains(
                    z,
                )) implies le_at(
                after.next,
                z,
                after.done[y] + sub_cost(
                    r.ignored,
                    r.case_insensitive,
                    r.c,
                    self.str_at(z).last(),
                ),
            ) by {
                if d.busy == Some(y) && z == ch {
                } else {
                    assert(le_at(
                        d.next,
                        z,
                        d.done[y] + sub_cost(
                            r.ignored,
                            r.case_insensitive,
                            r.c,
                            self.str_at(z).last(),
                        ),
                    ));
                }
            }
        }
        after
    }

    /// Once every location after the one gone through was dealt with,
    /// the passage is over.
    pub proof fn lemma_passed(
        self,
        r: Reading,
        d: Drain,
        w: WorkingMatch,
        steps: Seq<(char, CharLocation)>,
    ) -> (after: Drain)
        requires
            self.inv(),
            self.fits(),
            self.drain_inv(r, d),
            self.taken_ok(r, d, w),
            d.skipped,
            lists_steps(
                self,
                w.starting_char.node_index as int,
                w.starting_char.index_in_edge as int,
                steps,
            ),
            forall|j: int| 0 <= j < steps.len() ==> d.seen.contains((#[trigger] steps[j]).1),
        ensures
            self.drain_inv(r, after),
            after == (Drain { busy: None, ..d }),
    {
        let after = Drain { busy: None, ..d };
        let loc = w.starting_char;
        assert forall|z: CharLocation| self.is_kid(loc, z) implies d.seen.contains(z) by {
            let n2 = z.node_index as int;
            let o2 = z.index_in_edge as int;
            assert(self.loc_ok(n2, o2));
            let j = choose|j: int|
                0 <= j < steps.len() && (#[trigger] steps[j]).1 == (CharLocation {
                    node_index: n2 as usize,
                    index_in_edge: o2 as usize,
                });
            assert(steps[j].1 == z);
        }
        assert(self.closed(r, after)) by {
            assert forall|y: CharLocation, z: CharLocation|
                #![trigger after.done.contains_key(y), self.is_kid(y, z)]
                after.done.contains_key(y) && self.is_kid(y, z) && after.done[y] + 1
                    <= r.max_errors && (after.busy == Some(y) ==> after.seen.contains(
                    z,
                )) implies covered(
                after.layer,
                after.deeper,
                after.done,
                z,
                after.done[y] + 1,
            ) by {
                assert(covered(d.layer, d.deeper, d.done, z, d.done[y] + 1));
            }
        }
        assert(self.fed(r, after)) by {
            assert forall|y: CharLocation| #[trigger]
                after.done.contains_key(y) && after.done[y] + 1 <= r.max_errors && (after.busy
                    == Some(y) ==> after.skipped) implies le_at(
                after.next,
                y,
                after.done[y] + 1,
            ) by {
                assert(le_at(d.next, y, d.done[y] + 1));
            }
            assert forall|y: CharLocation, z: CharLocation|
                #![trigger after.done.contains_key(y), self.is_kid(y, z)]
                after.done.contains_key(y) && self.is_kid(y, z) && after.done[y] + sub_cost(
                    r.ignored,
                    r.case_insensitive,
                    r.c,
                    self.str_at(z).last(),
                ) <= r.max_errors && (after.busy == Some(y) ==> after.seen.contains(
                    z,
                )) implies le_at(
                after.next,
                z,
                after.done[y] + sub_cost(
                    r.ignored,
                    r.case_insensitive,
                    r.c,
                    self.str_at(z).last(),
                ),
            ) by {
                assert(le_at(
                    d.next,
                    z,
                    d.done[y] + sub_cost(
                        r.ignored,
                        r.case_insensitive,
                        r.c,
                        self.str_at(z).last(),
                    ),
                ));
            }
        }
        after
    }

    /// When a layer is used up, the deeper layer takes its place.
    pub proof fn lemma_next_layer(self, r: Reading, d: Drain) -> (after: Drain)
        requires
            self.drain_inv(r, d),
            d.busy is None,
            d.layer == Map::<CharLocation, WorkingMatch>::empty(),
        ensures
            self.drain_inv(r, after),
            after == (Drain { layer: d.deeper, deeper: Map::empty(), ..d }),
    {
        let after = Drain { layer: d.deeper, deeper: Map::empty(), ..d };
        assert forall|y: CharLocation, v: int|
            covered(d.layer, d.deeper, d.done, y, v) implies #[trigger] covered(
            after.layer,
            after.deeper,
            after.done,
            y,
            v,
        ) by {}
        assert(self.seeds_covered(r, after)) by {
            assert forall|y: CharLocation| #[trigger]
                self.reachable(r, r.prefix, y) implies covered(
                after.layer,
                after.deeper,
                after.done,
                y,
                self.cost_at(r, r.prefix, y)->0 as int,
            ) by {
                assert(covered(
                    d.layer,
                    d.deeper,
                    d.done,
                    y,
                    self.cost_at(r, r.prefix, y)->0 as int,
                ));
            }
        }
        assert(self.closed(r, after)) by {
            assert forall|y: CharLocation, z: CharLocation|
                #![trigger after.done.contains_key(y), self.is_kid(y, z)]
                after.done.contains_key(y) && self.is_kid(y, z) && after.done[y] + 1
                    <= r.max_errors && (after.busy == Some(y) ==> after.seen.contains(
                    z,
                )) implies covered(
                after.layer,
                after.deeper,
                after.done,
                z,
                after.done[y] + 1,
            ) by {
                assert(covered(d.layer, d.deeper, d.done, z, d.done[y] + 1));
            }
        }
        after
    }

    /// When nothing waits any more, every location within the budget
    /// was gone through with exactly its distance.
    pub proof fn lemma_all_done(self, r: Reading, d: Drain, loc: CharLocation)
        requires
            self.inv(),
            self.fits(),
            self.drain_inv(r, d),
            d.busy is None,
            d.layer == Map::<CharLocation, WorkingMatch>::empty(),
            d.deeper == Map::<CharLocation, WorkingMatch>::empty(),
            self.ok_at(loc),
            self.dist_at(r, r.prefix, loc) <= r.max_errors,
        ensures
            d.done.contains_key(loc),
            d.done[loc] == self.dist_at(r, r.prefix, loc),
        decreases self.loc_depth(loc.node_index as int, loc.index_in_edge as int),
    {
        let n = loc.node_index as int;
        let o = loc.index_in_edge as int;
        let t = self.str_at(loc);
        self.lemma_loc_bounds(n, o);
        self.lemma_node_bounds(n);
        lemma_dist_split(r.ignored, r.case_insensitive, r.prefix, t);
        let dd = self.dist_at(r, r.prefix, loc);
        if self.cost_at(r, r.prefix, loc) is Some && self.cost_at(r, r.prefix, loc)->0 == dd {
            assert(self.reachable(r, r.prefix, loc));
            assert(covered(d.layer, d.deeper, d.done, loc, dd as int));
        } else {
            assert(t.len() > 0);
            self.lemma_loc_parent(n, o);
            let (pn, po) = self.loc_parent(n, o);
            self.lemma_loc_bounds(pn, po);
            self.lemma_node_bounds(pn);
            let parent = CharLocation { node_index: pn as usize, index_in_edge: po as usize };
            assert(parent.node_index as int == pn && parent.index_in_edge as int == po);
            assert(self.str_at(parent) == t.drop_last());
            self.lemma_all_done(r, d, parent);
            assert(self.is_kid(parent, loc));
            assert(d.done.contains_key(parent));
            assert(covered(d.layer, d.deeper, d.done, loc, d.done[parent] + 1));
        }
    }

    /// When nothing waits any more, the generation for the longer
    /// prefix is exact.
    pub proof fn lemma_drain_end(self, r: Reading, d: Drain)
        requires
            self.inv(),
            self.fits(),
            self.drain_inv(r, d),
            d.busy is None,
            d.layer == Map::<CharLocation, WorkingMatch>::empty(),
            d.deeper == Map::<CharLocation, WorkingMatch>::empty(),
        ensures
            self.gen_exact(r, r.prefix.push(r.c), d.next),
    {
        let longer = r.prefix.push(r.c);
        assert forall|loc: CharLocation| #[trigger]
            self.reachable(r, longer, loc) implies le_at(
            d.next,
            loc,
            self.cost_at(r, longer, loc)->0 as int,
        ) by {
            let n = loc.node_index as int;
            let o = loc.index_in_edge as int;
            let t = self.str_at(loc);
            let v = self.cost_at(r, longer, loc)->0;
            self.lemma_loc_bounds(n, o);
            self.lemma_node_bounds(n);
            lemma_match_cost_push(r.ignored, r.case_insensitive, r.prefix, r.c, t);
            if v == self.dist_at(r, r.prefix, loc) + 1 {
                self.lemma_all_done(r, d, loc);
                assert(le_at(d.next, loc, d.done[loc] + 1));
            } else {
                self.lemma_loc_parent(n, o);
                let (pn, po) = self.loc_parent(n, o);
                self.lemma_loc_bounds(pn, po);
                self.lemma_node_bounds(pn);
                let parent = CharLocation { node_index: pn as usize, index_in_edge: po as usize };
                assert(parent.node_index as int == pn && parent.index_in_edge as int == po);
                assert(self.str_at(parent) == t.drop_last());
                self.lemma_all_done(r, d, parent);
                assert(self.is_kid(parent, loc));
                assert(d.done.contains_key(parent));
            }
        }
        assert forall|loc: CharLocation| #[trigger] d.next.contains_key(loc) implies self.cost_at(
            r,
            longer,
            loc,
        ) == Some(d.next[loc].errors as nat) by {
            assert(self.state_ok(r.max_errors, loc, d.next[loc]));
            assert(self.reachable(r, longer, loc));
        }
    }
}

} // verus!
