//! Positions inside the trie. Edges are compressed, so a text may end in
//! the middle of an edge: a location names a node and an offset on the
//! edge that leads to it.

use crate::model::{lemma_span_prefix, TrieModel};
use crate::trie::SuffixTrie;
use vstd::prelude::*;

verus! {

/// The position reached after reading the edge of `node_index` up to and
/// including its character number `index_in_edge`. The root, whose edge
/// is empty, has the single location with offset 0.
#[derive(Clone, Copy, Debug, PartialEq, Eq, Structural)]
pub struct CharLocation {
    pub node_index: usize,
    pub index_in_edge: usize,
}

impl CharLocation {
    /// The node and the offset of the location.
    pub fn sort_key(&self) -> (key: (usize, usize))
        ensures
            key == (self.node_index, self.index_in_edge),
    {
        (self.node_index, self.index_in_edge)
    }
}

impl TrieModel {
    /// `(n, o)` is a location of the trie.
    pub open spec fn loc_ok(self, n: int, o: int) -> bool {
        self.is_node(n) && if n == 0 {
            o == 0
        } else {
            0 <= o < self.nodes[n].len
        }
    }

    /// Number of characters read on the way from the root to `(n, o)`.
    pub open spec fn loc_depth(self, n: int, o: int) -> int {
        if n == 0 {
            0
        } else {
            self.depth[n] - self.nodes[n].len + o + 1
        }
    }

    /// The text read on the way from the root to `(n, o)`.
    pub open spec fn loc_string(self, n: int, o: int) -> Seq<char> {
        self.buf.subrange(self.begin(n), self.begin(n) + self.loc_depth(n, o))
    }

    /// The location reached is the end of the edge of its node.
    pub open spec fn at_node_end(self, n: int, o: int) -> bool {
        n == 0 || o + 1 == self.nodes[n].len
    }

    /// The text read up to a location lies inside the label of its node.
    pub proof fn lemma_loc_bounds(self, n: int, o: int)
        requires
            self.inv(),
            self.loc_ok(n, o),
        ensures
            0 <= self.begin(n),
            self.begin(n) + self.loc_depth(n, o) <= self.end(n) <= self.buf.len(),
            self.loc_string(n, o).len() == self.loc_depth(n, o),
            n > 0 ==> self.loc_depth(n, o) == self.depth[self.parent[n]] + o + 1,
            n > 0 ==> self.depth[self.parent[n]] < self.loc_depth(n, o) <= self.depth[n],
            n == 0 ==> self.loc_depth(n, o) == 0,
            self.at_node_end(n, o) ==> self.loc_depth(n, o) == self.depth[n] && self.loc_string(n, o)
                == self.label(n),
    {
        self.lemma_node_bounds(n);
    }

    /// Two locations at which the same text was read are one location.
    pub proof fn lemma_loc_unique(self, n1: int, o1: int, n2: int, o2: int)
        requires
            self.inv(),
            self.loc_ok(n1, o1),
            self.loc_ok(n2, o2),
            self.loc_string(n1, o1) == self.loc_string(n2, o2),
        ensures
            n1 == n2,
            o1 == o2,
    {
        self.lemma_loc_bounds(n1, o1);
        self.lemma_loc_bounds(n2, o2);
        self.lemma_node_bounds(n1);
        self.lemma_node_bounds(n2);
        assert(self.loc_string(n1, o1).len() == self.loc_string(n2, o2).len());
        assert(self.loc_depth(n1, o1) == self.loc_depth(n2, o2));
        if n1 > 0 && n2 > 0 {
            self.lemma_same_edge(n1, n2, self.loc_depth(n1, o1));
        }
    }

    /// The location one character before `(n, o)`.
    pub open spec fn loc_parent(self, n: int, o: int) -> (int, int) {
        if o > 0 {
            (n, o - 1)
        } else if self.parent[n] == 0 {
            (0, 0)
        } else {
            (self.parent[n], self.nodes[self.parent[n]].len - 1)
        }
    }

    /// The location one character before a location is a location, and
    /// the text read up to it is one character shorter.
    pub proof fn lemma_loc_parent(self, n: int, o: int)
        requires
            self.inv(),
            self.loc_ok(n, o),
            n > 0,
        ensures
            self.loc_ok(self.loc_parent(n, o).0, self.loc_parent(n, o).1),
            self.loc_depth(self.loc_parent(n, o).0, self.loc_parent(n, o).1) == self.loc_depth(n, o)
                - 1,
            self.loc_string(self.loc_parent(n, o).0, self.loc_parent(n, o).1) == self.loc_string(
                n,
                o,
            ).drop_last(),
            o > 0 ==> !self.at_node_end(self.loc_parent(n, o).0, self.loc_parent(n, o).1),
            o == 0 ==> self.at_node_end(self.loc_parent(n, o).0, self.loc_parent(n, o).1)
                && self.loc_parent(n, o).0 == self.parent[n],
    {
        self.lemma_loc_bounds(n, o);
        self.lemma_node_bounds(n);
        assert(self.node_ok(n));
        let p = self.parent[n];
        self.lemma_node_bounds(p);
        let (pn, po) = self.loc_parent(n, o);
        if o > 0 {
            assert(self.loc_string(pn, po) =~= self.loc_string(n, o).drop_last());
        } else {
            if p > 0 {
                assert(self.node_ok(p));
            }
            self.lemma_loc_bounds(pn, po);
            assert(self.loc_string(pn, po) == self.label(p));
            assert(self.loc_string(n, o).drop_last() =~= self.buf.subrange(
                self.begin(n),
                self.begin(n) + self.depth[p],
            ));
        }
    }

    /// The location of the text of length `len` along the way to `h`.
    pub proof fn lemma_loc_on_path(self, h: int, len: int) -> (loc: (int, int))
        requires
            self.inv(),
            self.is_node(h),
            0 <= len <= self.depth[h],
        ensures
            self.loc_ok(loc.0, loc.1),
            self.loc_depth(loc.0, loc.1) == len,
            self.loc_string(loc.0, loc.1) == self.buf.subrange(self.begin(h), self.begin(h) + len),
            self.anc(loc.0, h),
    {
        self.lemma_node_bounds(h);
        if len == 0 {
            self.lemma_root_anc(h);
            assert(self.loc_string(0, 0) =~= self.buf.subrange(self.begin(h), self.begin(h) + 0));
            (0, 0)
        } else {
            let a = self.lemma_cover(h, len);
            self.lemma_anc_label(a, h);
            self.lemma_node_bounds(a);
            let o = len - self.depth[self.parent[a]] - 1;
            assert(self.node_ok(a));
            self.lemma_loc_bounds(a, o);
            lemma_span_prefix(self.buf, self.begin(h), self.begin(a), self.depth[a], len);
            (a, o)
        }
    }

    /// The text read up to a location starts the label of every node
    /// below the location's node.
    pub proof fn lemma_loc_prefix(self, n: int, o: int, h: int)
        requires
            self.inv(),
            self.loc_ok(n, o),
            self.is_node(h),
            self.anc(n, h),
        ensures
            self.loc_depth(n, o) <= self.depth[h],
            self.loc_string(n, o) == self.buf.subrange(
                self.begin(h),
                self.begin(h) + self.loc_depth(n, o),
            ),
    {
        self.lemma_loc_bounds(n, o);
        self.lemma_anc_label(n, h);
        self.lemma_node_bounds(h);
        self.lemma_node_bounds(n);
        lemma_span_prefix(
            self.buf,
            self.begin(h),
            self.begin(n),
            self.depth[n],
            self.loc_depth(n, o),
        );
    }

    /// `(n2, o2)` is the location reached from `(n, o)` by reading `c`.
    pub open spec fn steps_to(self, n: int, o: int, c: char, n2: int, o2: int) -> bool {
        &&& self.loc_ok(n2, o2)
        &&& self.loc_depth(n2, o2) == self.loc_depth(n, o) + 1
        &&& self.loc_string(n2, o2) == self.loc_string(n, o).push(c)
    }
}

/// The locations listed are those reached from `(n, o)` by one more
/// character, each once and with that character.
pub open spec fn lists_steps(
    m: TrieModel,
    n: int,
    o: int,
    steps: Seq<(char, CharLocation)>,
) -> bool {
    &&& forall|i: int|
        0 <= i < steps.len() ==> m.steps_to(
            n,
            o,
            (#[trigger] steps[i]).0,
            steps[i].1.node_index as int,
            steps[i].1.index_in_edge as int,
        )
    &&& forall|n2: int, o2: int|
        #![trigger m.loc_ok(n2, o2)]
        m.loc_ok(n2, o2) && n2 > 0 && m.loc_string(n2, o2).drop_last() == m.loc_string(n, o)
            ==> exists|i: int|
            0 <= i < steps.len() && (#[trigger] steps[i]).1 == (CharLocation {
                node_index: n2 as usize,
                index_in_edge: o2 as usize,
            })
    &&& forall|i: int, j: int|
        0 <= i < j < steps.len() ==> (#[trigger] steps[i]).1 != (#[trigger] steps[j]).1
}

impl SuffixTrie {
    /// The locations one character further than the given one, each with
    /// the character that leads to it. At the end of an edge these are
    /// the first characters of the edges of the node's children; inside
    /// an edge it is the next character of the edge.
    pub fn generation_after_char_dict(&self, char_location: CharLocation) -> (result: Vec<
        (char, CharLocation),
    >)
        requires
            self.built(),
            self.model().loc_ok(
                char_location.node_index as int,
                char_location.index_in_edge as int,
            ),
        ensures
            lists_steps(
                self.model(),
                char_location.node_index as int,
                char_location.index_in_edge as int,
                result@,
            ),
    {
        let ghost m = self.model();
        let ghost n = char_location.node_index as int;
        let ghost o = char_location.index_in_edge as int;
        let this_node = self.get_node(char_location.node_index);
        let mut result: Vec<(char, CharLocation)> = Vec::new();
        proof {
            m.lemma_loc_bounds(n, o);
            m.lemma_node_bounds(n);
            if n > 0 {
                assert(m.node_ok(n));
            }
            assert(m.buf.len() == self.str_storage.len());
        }
        if char_location.index_in_edge + 1 >= this_node.edge_length {
            let entries = this_node.child_entries();
            let mut i: usize = 0;
            proof {
                assert(m.kids_ok(n));
            }
            while i < entries.len()
                invariant
                    self.built(),
                    m == self.model(),
                    m.loc_ok(n, o),
                    m.at_node_end(n, o),
                    i <= entries.len(),
                    result.len() == i,
                    crate::leaves::lists_map(entries@, m.nodes[n].kids),
                    forall|j: int|
                        0 <= j < i ==> (#[trigger] result[j]).1 == (CharLocation {
                            node_index: entries[j].1,
                            index_in_edge: 0,
                        }) && result[j].0 as u32 == entries[j].0 && m.steps_to(
                            n,
                            o,
                            result[j].0,
                            entries[j].1 as int,
                            0,
                        ),
                decreases entries.len() - i,
            {
                let child_index: usize = entries[i].1;
                proof {
                    assert(m.kids_ok(n));
                    assert(m.nodes[n].kids.contains_key(entries[i as int].0));
                    assert(m.node_ok(child_index as int));
                    m.lemma_node_bounds(child_index as int);
                    m.lemma_loc_bounds(n, o);
                    m.lemma_loc_bounds(child_index as int, 0);
                }
                let child = self.get_node(child_index);
                let edge: char = self.str_storage[child.edge_start_index];
                proof {
                    let c = child_index as int;
                    assert(m.loc_string(c, 0) =~= m.loc_string(n, o).push(edge)) by {
                        let dp = m.depth[n];
                        assert(m.buf.subrange(m.begin(c), m.begin(c) + dp) == m.label(n));
                        assert(m.loc_string(n, o) == m.label(n));
                        assert(m.loc_string(c, 0) == m.buf.subrange(m.begin(c), m.begin(c) + dp + 1));
                        assert(m.loc_string(c, 0).drop_last() =~= m.buf.subrange(
                            m.begin(c),
                            m.begin(c) + dp,
                        ));
                        assert(m.loc_string(c, 0).last() == edge);
                    }
                }
                result.push((edge, CharLocation { node_index: child_index, index_in_edge: 0 }));
                i = i + 1;
            }
            proof {
                assert forall|n2: int, o2: int|
                    #![trigger m.loc_ok(n2, o2)]
                    m.loc_ok(n2, o2) && n2 > 0 && m.loc_string(n2, o2).drop_last() == m.loc_string(
                        n,
                        o,
                    ) implies exists|i: int|
                    0 <= i < result@.len() && (#[trigger] result@[i]).1 == (CharLocation {
                        node_index: n2 as usize,
                        index_in_edge: o2 as usize,
                    }) by {
                    m.lemma_loc_parent(n2, o2);
                    let (pn, po) = m.loc_parent(n2, o2);
                    m.lemma_loc_unique(pn, po, n, o);
                    assert(o2 == 0);
                    assert(m.node_ok(n2));
                    let k = m.key(n2);
                    let j = choose|j: int| 0 <= j < entries@.len() && (#[trigger] entries@[j]).0 == k;
                    assert(result@[j].1.node_index == n2);
                }
                assert forall|i: int, j: int| 0 <= i < j < result@.len() implies (#[trigger] result@[i]).1
                    != (#[trigger] result@[j]).1 by {
                    assert(entries@[i].0 != entries@[j].0);
                    assert(m.nodes[n].kids.contains_key(entries@[i].0));
                    assert(m.nodes[n].kids.contains_key(entries@[j].0));
                }
            }
        } else {
            let new_edge_start_index: usize = char_location.index_in_edge + 1;
            let child_location = CharLocation {
                node_index: char_location.node_index,
                index_in_edge: new_edge_start_index,
            };
            let edge: char = self.str_storage[this_node.edge_start_index + new_edge_start_index];
            proof {
                m.lemma_loc_bounds(n, o + 1);
                assert(m.loc_string(n, o + 1) =~= m.loc_string(n, o).push(edge));
            }
            result.push((edge, child_location));
            proof {
                assert forall|n2: int, o2: int|
                    #![trigger m.loc_ok(n2, o2)]
                    m.loc_ok(n2, o2) && n2 > 0 && m.loc_string(n2, o2).drop_last() == m.loc_string(
                        n,
                        o,
                    ) implies exists|i: int|
                    0 <= i < result@.len() && (#[trigger] result@[i]).1 == (CharLocation {
                        node_index: n2 as usize,
                        index_in_edge: o2 as usize,
                    }) by {
                    m.lemma_loc_parent(n2, o2);
                    let (pn, po) = m.loc_parent(n2, o2);
                    m.lemma_loc_unique(pn, po, n, o);
                    assert(result@[0].1.node_index == n2);
                }
            }
        }
        result
    }
}

} // verus!
