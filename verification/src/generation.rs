//! A generation of partial matches: for each location the least number
//! of errors with which the location was reached.

use crate::locate::CharLocation;
use std::collections::HashMap;
use vstd::prelude::*;
use vstd::std_specs::hash::*;

verus! {

/// A partial match: the location reached in the trie, the errors made on
/// the way and the number of text characters read.
#[derive(Clone, Copy, Debug)]
pub struct WorkingMatch {
    pub starting_char: CharLocation,
    pub errors: usize,
    pub length: usize,
}

impl WorkingMatch {
    /// A partial match with the given parts.
    pub fn new(starting_char: CharLocation, errors: usize, length: usize) -> (m: WorkingMatch)
        ensures
            m.starting_char == starting_char,
            m.errors == errors,
            m.length == length,
    {
        WorkingMatch { starting_char, errors, length }
    }
}

/// The number under which a location is filed.
pub open spec fn key_of(loc: CharLocation) -> u128 {
    (loc.node_index as int * 0x1_0000_0000_0000_0000 + loc.index_in_edge as int) as u128
}

/// Different locations are filed under different numbers.
pub proof fn lemma_key_injective(a: CharLocation, b: CharLocation)
    ensures
        key_of(a) == key_of(b) <==> a == b,
{
    let ka = a.node_index as int * 0x1_0000_0000_0000_0000 + a.index_in_edge as int;
    let kb = b.node_index as int * 0x1_0000_0000_0000_0000 + b.index_in_edge as int;
    assert(0 <= ka <= u128::MAX);
    assert(0 <= kb <= u128::MAX);
    if ka == kb {
        assert(a.node_index == b.node_index);
    }
}

fn location_key(loc: CharLocation) -> (key: u128)
    ensures
        key == key_of(loc),
{
    (loc.node_index as u128) * 0x1_0000_0000_0000_0000u128 + (loc.index_in_edge as u128)
}

/// The partial matches of one generation, one for each location, with a
/// list of the locations still to be handed out.
pub struct WorkingMatchesSet {
    pub indices: Vec<CharLocation>,
    pub working_matches: HashMap<u128, WorkingMatch>,
}

impl WorkingMatchesSet {
    /// The list and the table hold the same locations, each once.
    pub open spec fn wf(&self) -> bool {
        &&& self.indices@.no_duplicates()
        &&& forall|i: int|
            0 <= i < self.indices.len() ==> self.working_matches@.contains_key(
                key_of(#[trigger] self.indices[i]),
            )
        &&& forall|k: u128| #[trigger]
            self.working_matches@.contains_key(k) ==> key_of(self.working_matches@[k].starting_char)
                == k && self.indices@.contains(self.working_matches@[k].starting_char)
    }

    /// The partial matches held, by location.
    pub open spec fn view(&self) -> Map<CharLocation, WorkingMatch> {
        Map::new(
            |loc: CharLocation| self.working_matches@.contains_key(key_of(loc)),
            |loc: CharLocation| self.working_matches@[key_of(loc)],
        )
    }

    /// The generation without partial matches.
    pub fn empty() -> (set: WorkingMatchesSet)
        ensures
            set.wf(),
            set@ == Map::<CharLocation, WorkingMatch>::empty(),
            set.indices@ == Seq::<CharLocation>::empty(),
    {
        let set = WorkingMatchesSet { indices: Vec::new(), working_matches: HashMap::new() };
        proof {
            assert(set@ =~= Map::<CharLocation, WorkingMatch>::empty());
        }
        set
    }

    /// The generation that holds the root alone, reached without errors.
    pub fn only_root_node() -> (set: WorkingMatchesSet)
        ensures
            set.wf(),
            set@ == Map::<CharLocation, WorkingMatch>::empty().insert(
                CharLocation { node_index: 0, index_in_edge: 0 },
                WorkingMatch {
                    starting_char: CharLocation { node_index: 0, index_in_edge: 0 },
                    errors: 0,
                    length: 0,
                },
            ),
    {
        let mut working_matches_set = WorkingMatchesSet::empty();
        let root_location = CharLocation { node_index: 0, index_in_edge: 0 };
        working_matches_set.add_working_match(root_location, 0, 0);
        working_matches_set
    }

    /// Files a partial match. Where the location is filed already, the
    /// smaller number of errors stays, with the length given now.
    pub fn add_working_match(&mut self, starting_char: CharLocation, errors: usize, length: usize)
        requires
            old(self).wf(),
        ensures
            final(self).wf(),
            final(self)@ == old(self)@.insert(
                starting_char,
                WorkingMatch {
                    starting_char,
                    errors: if old(self)@.contains_key(starting_char) && old(
                        self,
                    )@[starting_char].errors < errors {
                        old(self)@[starting_char].errors
                    } else {
                        errors
                    },
                    length,
                },
            ),
            final(self).indices@ == if old(self)@.contains_key(starting_char) {
                old(self).indices@
            } else {
                old(self).indices@.push(starting_char)
            },
    {
        broadcast use group_hash_axioms;

        let key = location_key(starting_char);
        let mut min_errors: usize = errors;
        let ghost was = *self;
        match self.working_matches.get(&key) {
            Some(existing_match) => {
                if existing_match.errors < errors {
                    min_errors = existing_match.errors;
                }
                proof {
                    lemma_key_injective(existing_match.starting_char, starting_char);
                }
            },
            None => {
                proof {
                    assert forall|i: int| 0 <= i < self.indices.len() implies self.indices[i]
                        != starting_char by {
                        assert(self.working_matches@.contains_key(key_of(self.indices[i])));
                    }
                }
                self.indices.push(starting_char);
            },
        }
        let match_obj = WorkingMatch::new(starting_char, min_errors, length);
        self.working_matches.insert(key, match_obj);
        proof {
            assert forall|i: int| 0 <= i < self.indices.len() implies self.working_matches@.contains_key(
                key_of(#[trigger] self.indices[i]),
            ) by {
                if i < was.indices.len() {
                    assert(self.indices[i] == was.indices[i]);
                }
            }
            assert forall|k: u128| #[trigger]
                self.working_matches@.contains_key(k) implies key_of(
                self.working_matches@[k].starting_char,
            ) == k && self.indices@.contains(self.working_matches@[k].starting_char) by {
                if k == key {
                    if was.working_matches@.contains_key(key) {
                        let j = choose|j: int|
                            0 <= j < was.indices.len() && was.indices[j] == starting_char;
                        assert(self.indices[j] == starting_char);
                    } else {
                        assert(self.indices[self.indices.len() - 1] == starting_char);
                    }
                } else {
                    let loc = was.working_matches@[k].starting_char;
                    let j = choose|j: int| 0 <= j < was.indices.len() && was.indices[j] == loc;
                    assert(self.indices[j] == loc);
                }
            }
            assert(self@ =~= was@.insert(starting_char, match_obj)) by {
                assert forall|loc: CharLocation|
                    self@.contains_key(loc) <==> was@.insert(starting_char, match_obj).contains_key(
                        loc,
                    ) by {
                    lemma_key_injective(loc, starting_char);
                }
                assert forall|loc: CharLocation| self@.contains_key(loc) implies self@[loc]
                    == was@.insert(starting_char, match_obj)[loc] by {
                    lemma_key_injective(loc, starting_char);
                }
            }
        }
    }

    /// Whether no partial match is left to hand out.
    pub fn is_empty(&self) -> (empty: bool)
        requires
            self.wf(),
        ensures
            empty == (self.indices@.len() == 0),
            empty == (self@ == Map::<CharLocation, WorkingMatch>::empty()),
    {
        let empty = self.indices.len() == 0;
        proof {
            if empty {
                assert(self@ =~= Map::<CharLocation, WorkingMatch>::empty()) by {
                    assert forall|loc: CharLocation| !self@.contains_key(loc) by {
                        if self.working_matches@.contains_key(key_of(loc)) {
                            let w = self.working_matches@[key_of(loc)].starting_char;
                            assert(self.indices@.contains(w));
                        }
                    }
                }
            } else {
                assert(self@.contains_key(self.indices[0]));
            }
        }
        empty
    }

    /// Hands out the partial match filed last among those still held and
    /// takes it out of the set.
    pub fn next(&mut self) -> (next: Option<WorkingMatch>)
        requires
            old(self).wf(),
        ensures
            final(self).wf(),
            match next {
                Some(w) => {
                    &&& old(self)@.contains_key(w.starting_char)
                    &&& old(self)@[w.starting_char] == w
                    &&& final(self)@ == old(self)@.remove(w.starting_char)
                    &&& old(self).indices@.len() > 0
                    &&& w.starting_char == old(self).indices@.last()
                    &&& final(self).indices@ == old(self).indices@.drop_last()
                },
                None => {
                    &&& old(self).indices@.len() == 0
                    &&& final(self)@ == old(self)@
                    &&& final(self).indices@ == old(self).indices@
                },
            },
    {
        broadcast use group_hash_axioms;

        if self.indices.len() == 0 {
            return None;
        }
        let ghost was = *self;
        let index: CharLocation = self.indices[self.indices.len() - 1];
        self.indices.pop();
        let key = location_key(index);
        proof {
            assert(was.working_matches@.contains_key(key_of(was.indices[was.indices.len() - 1])));
        }
        let found = self.working_matches.remove(&key);
        proof {
            assert(found is Some);
            let match_obj = found->0;
            lemma_key_injective(match_obj.starting_char, index);
            assert forall|i: int| 0 <= i < self.indices.len() implies self.working_matches@.contains_key(
                key_of(#[trigger] self.indices[i]),
            ) by {
                assert(self.indices[i] == was.indices[i]);
                assert(was.indices[i] != was.indices[was.indices.len() - 1]);
                lemma_key_injective(self.indices[i], index);
            }
            assert forall|k: u128| #[trigger]
                self.working_matches@.contains_key(k) implies key_of(
                self.working_matches@[k].starting_char,
            ) == k && self.indices@.contains(self.working_matches@[k].starting_char) by {
                let loc = was.working_matches@[k].starting_char;
                let j = choose|j: int| 0 <= j < was.indices.len() && was.indices[j] == loc;
                assert(self.indices[j] == loc);
            }
            assert(self@ =~= was@.remove(index)) by {
                assert forall|loc: CharLocation|
                    self@.contains_key(loc) <==> was@.remove(index).contains_key(loc) by {
                    lemma_key_injective(loc, index);
                }
            }
        }
        found
    }
}

} // verus!
