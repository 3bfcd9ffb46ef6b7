//! Insertion of one suffix into the trie.

use crate::config::{lemma_exact_matches, MatcherConfig};
use crate::model::{lemma_code_injective, lemma_common_len, TrieModel};
use crate::record::Leaf;
use crate::trie::{EdgeMatchKind, Shape, SuffixTrie};
use vstd::prelude::*;

verus! {

/// Spans that are equal piece by piece are equal.
pub proof fn lemma_span_concat(s: Seq<char>, x: int, y: int, a: int, b: int)
    requires
        0 <= x,
        0 <= y,
        0 <= a,
        0 <= b,
        x + a + b <= s.len(),
        y + a + b <= s.len(),
        s.subrange(x, x + a) == s.subrange(y, y + a),
        s.subrange(x + a, x + a + b) == s.subrange(y + a, y + a + b),
    ensures
        s.subrange(x, x + a + b) == s.subrange(y, y + a + b),
{
    let u = s.subrange(x, x + a + b);
    let v = s.subrange(y, y + a + b);
    assert forall|i: int| 0 <= i < a + b implies #[trigger] u[i] == v[i] by {
        if i < a {
            let p = s.subrange(x, x + a);
            let q = s.subrange(y, y + a);
            assert(p[i] == s[x + i]);
            assert(q[i] == s[y + i]);
        } else {
            let p = s.subrange(x + a, x + a + b);
            let q = s.subrange(y + a, y + a + b);
            assert(p[i - a] == s[x + a + (i - a)]);
            assert(q[i - a] == s[y + a + (i - a)]);
        }
    }
    assert(u =~= v);
}

/// Spans that hold the same characters are equal.
pub proof fn lemma_span_pointwise(s: Seq<char>, x: int, y: int, k: int)
    requires
        0 <= x,
        0 <= y,
        0 <= k,
        x + k <= s.len(),
        y + k <= s.len(),
        forall|j: int| x <= j < x + k ==> #[trigger] s[j] == s[y + (j - x)],
    ensures
        s.subrange(x, x + k) == s.subrange(y, y + k),
{
    let u = s.subrange(x, x + k);
    let v = s.subrange(y, y + k);
    assert forall|i: int| 0 <= i < k implies #[trigger] u[i] == v[i] by {
        assert(s[x + i] == s[y + (x + i - x)]);
    }
    assert(u =~= v);
}

impl TrieModel {
    /// A text that has the label of the parent of `child` before offset
    /// `cur` and the first `k` characters of the edge of `child` from
    /// `cur` on has so much of the label of `child` up to `cur + k`.
    pub proof fn lemma_along_edge(self, child: int, cur: int, k: int)
        requires
            self.inv(),
            0 < child < self.nodes.len(),
            0 <= k <= self.nodes[child].len,
            self.depth[self.parent[child]] <= cur,
            cur + k <= self.buf.len(),
            self.buf.subrange(cur - self.depth[self.parent[child]], cur) == self.label(
                self.parent[child],
            ),
            self.buf.subrange(cur, cur + k) == self.buf.subrange(
                self.nodes[child].start,
                self.nodes[child].start + k,
            ),
        ensures
            self.buf.subrange(cur - self.depth[self.parent[child]], cur + k) == self.buf.subrange(
                self.begin(child),
                self.begin(child) + self.depth[self.parent[child]] + k,
            ),
    {
        let dp = self.depth[self.parent[child]];
        self.lemma_node_bounds(child);
        self.lemma_node_bounds(self.parent[child]);
        assert(self.node_ok(child));
        lemma_span_concat(self.buf, cur - dp, self.begin(child), dp, k);
    }
}

impl SuffixTrie {
    /// Puts the rest of a suffix into the trie at the child it must pass
    /// through. The suffix lies in the buffer and ends before `until`;
    /// it is read up to `start_index`, where the part still to read
    /// begins with the first character of the child's edge. Returns the
    /// offset up to which the suffix and the edge agree, and the node
    /// that holds the suffix from there on:
    ///
    /// - where the suffix has the whole edge, nothing changes, and the
    ///   node is the child;
    /// - where the suffix ends on the edge, the edge is cut there, and
    ///   the node is the child, now with the shorter edge;
    /// - where the suffix leaves the edge, the edge is cut there and the
    ///   child gets a new node with the rest of the suffix, which is the
    ///   node returned.
    pub(crate) fn insert_within_edge(&mut self, parent_index: usize, start_index: usize, until: usize) -> (r:
        (usize, usize))
        requires
            old(self).built(),
            0 < parent_index < old(self).model().nodes.len(),
            start_index < until <= old(self).model().buf.len(),
            old(self).model().buf[start_index as int] == old(self).model().buf[old(
                self,
            ).model().nodes[parent_index as int].start],
            old(self).model().depth[old(self).model().parent[parent_index as int]] <= start_index,
            old(self).model().buf.subrange(
                start_index - old(self).model().depth[old(self).model().parent[parent_index as int]],
                start_index as int,
            ) == old(self).model().label(old(self).model().parent[parent_index as int]),
        ensures
            r.0 == start_index + old(self).model().along(
                parent_index as int,
                start_index as int,
                until as int,
            ),
            start_index < r.0 <= until,
            r.0 - start_index <= old(self).model().nodes[parent_index as int].len,
            r.0 - start_index == old(self).model().nodes[parent_index as int].len ==> *final(self)
                == *old(self) && r.1 == parent_index,
            r.0 - start_index < old(self).model().nodes[parent_index as int].len && r.0 == until
                ==> final(self).model() == old(self).model().split(
                parent_index as int,
                r.0 - start_index,
            ) && r.1 == parent_index,
            r.0 - start_index < old(self).model().nodes[parent_index as int].len && r.0 < until
                ==> final(self).model() == old(self).model().split(
                parent_index as int,
                r.0 - start_index,
            ).with_node(parent_index as int, r.0 as int, until - r.0) && r.1 == old(
                self,
            ).model().nodes.len() + 1 && old(self).model().buf[r.0 as int] != old(
                self,
            ).model().buf[old(self).model().nodes[parent_index as int].start + (r.0 - start_index)],
            final(self).built(),
            final(self).same_texts(old(self)),
            r.1 < final(self).model().nodes.len(),
            final(self).model().depth[r.1 as int] == (if r.1 == parent_index {
                r.0
            } else {
                until
            }) - (start_index - old(self).model().depth[old(self).model().parent[parent_index as int]]),
            final(self).model().label(r.1 as int) == final(self).model().buf.subrange(
                start_index - old(self).model().depth[old(self).model().parent[parent_index as int]],
                if r.1 == parent_index {
                    r.0 as int
                } else {
                    until as int
                },
            ),
    {
        let ghost m = self.model();
        let ghost dp = m.depth[m.parent[parent_index as int]];
        let ghost from = start_index - dp;
        let config = MatcherConfig::exact();
        let edge_match = self.consume_all_shared_length(
            parent_index,
            &self.str_storage,
            start_index,
            until,
            &config,
        );
        let shared: usize = edge_match.shared_length;
        proof {
            m.lemma_node_bounds(parent_index as int);
            assert(m.node_ok(parent_index as int));
            let s = m.nodes[parent_index as int].start;
            let edge_len = m.nodes[parent_index as int].len;
            assert forall|j: int| start_index <= j < start_index + shared implies #[trigger] m.buf[j]
                == m.buf[s + (j - start_index)] by {
                if j > start_index {
                    lemma_exact_matches(&config, m.buf[j], m.buf[s + (j - start_index)]);
                }
            }
            lemma_span_pointwise(m.buf, start_index as int, s, shared as int);
            m.lemma_along_edge(parent_index as int, start_index as int, shared as int);
            assert forall|i: int| 0 <= i < shared implies #[trigger] m.buf[start_index + i] == m.buf[s
                + i] by {
                assert(m.buf[start_index + i] == m.buf[s + (start_index + i - start_index)]);
            }
            if shared < edge_len && shared < until - start_index {
                lemma_exact_matches(&config, m.buf[start_index + shared], m.buf[s + shared]);
            }
            lemma_common_len(
                m.buf,
                start_index as int,
                s,
                if edge_len <= until - start_index {
                    edge_len
                } else {
                    until - start_index
                },
                shared as int,
            );
        }
        match edge_match.overlap_type {
            EdgeMatchKind::WholeMatch => {
                proof {
                    assert(m.label(parent_index as int) == m.buf.subrange(
                        from,
                        start_index + shared,
                    ));
                }
                (start_index + shared, parent_index)
            },
            EdgeMatchKind::Diverge(last_char) => {
                self.split_edge(parent_index, shared);
                proof {
                    let t = self.model();
                    let s = m.nodes[parent_index as int].start;
                    assert(t.label(parent_index as int) == m.buf.subrange(
                        from,
                        start_index + shared,
                    ));
                    lemma_code_injective(last_char, m.buf[s + shared]);
                    assert(t.nodes[parent_index as int].kids.dom() =~= set![m.buf[s + shared] as u32]);
                }
                let child_index = self.add_node(
                    parent_index,
                    last_char,
                    start_index + shared,
                    until - (start_index + shared),
                );
                (start_index + shared, child_index)
            },
            EdgeMatchKind::EarlyStop => {
                self.split_edge(parent_index, shared);
                proof {
                    let t = self.model();
                    assert(t.label(parent_index as int) == m.buf.subrange(
                        from,
                        start_index + shared,
                    ));
                }
                (start_index + shared, parent_index)
            },
        }
    }

    /// Inserts the suffix of document `text_index` that starts at
    /// document offset `index_in_text` and ends in the buffer before
    /// `until`, and marks the node where it ends. The suffixes of a
    /// document are inserted in the order of their offsets. No node is
    /// left without a marker or a second child.
    pub(crate) fn add_suffix(&mut self, until: usize, index_in_text: usize, text_index: usize)
        requires
            old(self).built(),
            old(self).model().tidy(),
            text_index < old(self).model().offsets.len(),
            index_in_text == old(self).model().home[text_index as int].len(),
            old(self).model().offsets[text_index as int] + index_in_text < until <= old(
                self,
            ).model().buf.len(),
        ensures
            final(self).built(),
            final(self).model().tidy(),
            final(self).model().buf == old(self).model().buf,
            final(self).model().offsets == old(self).model().offsets,
            final(self).model().home.len() == old(self).model().home.len(),
            forall|d: int|
                0 <= d < old(self).model().home.len() ==> (#[trigger] final(self).model().home[d]).len()
                    == old(self).model().home[d].len() + if d == text_index {
                    1int
                } else {
                    0int
                },
            final(self).model().ends == old(self).model().ends.update(
                text_index as int,
                old(self).model().ends[text_index as int].push(
                    until - old(self).model().offsets[text_index as int],
                ),
            ),
            final(self).same_docs(old(self)),
            old(self).model().nodes.len() <= final(self).model().nodes.len() <= old(
                self,
            ).model().nodes.len() + 2,
    {
        let ghost m0 = self.model();
        let from: usize = index_in_text + self.texts[text_index].offset;
        let mut parent_index: usize = 0;
        let mut current_char_index: usize = from;
        proof {
            assert(m0.label(0) =~= m0.buf.subrange(from as int, from as int));
        }
        while current_char_index < until
            invariant
                self.built(),
                self.same_texts(old(self)),
                self.model().tidy_but(parent_index as int),
                current_char_index < until ==> self.model().tidy(),
                self.model().nodes.len() == m0.nodes.len() || (current_char_index == until
                    && self.model().nodes.len() <= m0.nodes.len() + 2),
                m0.nodes.len() <= self.model().nodes.len(),
                text_index < self.texts.len(),
                parent_index < self.model().nodes.len(),
                from <= current_char_index <= until <= self.str_storage.len(),
                self.model().depth[parent_index as int] == current_char_index - from,
                self.model().label(parent_index as int) == self.model().buf.subrange(
                    from as int,
                    current_char_index as int,
                ),
            decreases until - current_char_index,
        {
            let c: char = self.str_storage[current_char_index];
            let ghost m = self.model();
            proof {
                assert(m.kids_ok(parent_index as int));
                assert(m.nodes[parent_index as int] == self.node_storage[parent_index as int].model());
            }
            match self.node_storage[parent_index].get_child_index(c) {
                Some(ancestor_index) => {
                    proof {
                        assert(m.nodes[parent_index as int].kids.contains_key(c as u32));
                        lemma_code_injective(c, m.buf[m.nodes[ancestor_index as int].start]);
                        assert(m.node_ok(ancestor_index as int));
                    }
                    let (reached, child_index) = self.insert_within_edge(
                        ancestor_index,
                        current_char_index,
                        until,
                    );
                    proof {
                        let a = ancestor_index as int;
                        let k = reached - current_char_index;
                        if k < m.nodes[a].len {
                            m.lemma_split_tidy(a, k);
                            if reached < until {
                                let t = m.split(a, k);
                                let other = m.buf[m.nodes[a].start + k];
                                lemma_code_injective(other, m.buf[reached as int]);
                                assert(t.nodes[a].kids.contains_key(other as u32));
                                t.lemma_with_node_tidy(a, reached as int, until - reached);
                            }
                        }
                    }
                    // a node other than the child entered is new and holds
                    // the rest of the suffix
                    current_char_index =
                    if child_index == ancestor_index {
                        reached
                    } else {
                        until
                    };
                    parent_index = child_index;
                },
                None => {
                    proof {
                        if parent_index != 0 {
                            assert(m.forks(parent_index as int));
                        }
                        m.lemma_with_node_tidy(
                            parent_index as int,
                            current_char_index as int,
                            until - current_char_index,
                        );
                    }
                    parent_index =
                    self.add_node(parent_index, c, current_char_index, until - current_char_index);
                    current_char_index = until;
                },
            }
        }
        let ghost m = self.model();
        let ghost end = until - m.offsets[text_index as int];
        self.node_storage[parent_index].add_leaf_child(Leaf::new(index_in_text, text_index));
        proof {
            let shape = self.shape@;
            let t = m.with_marker(parent_index as int, text_index as int, end);
            self.shape@ = Shape { home: t.home, ends: t.ends, ..shape };
            assert(self.model().nodes =~~= t.nodes);
            assert(self.model().offsets =~= t.offsets);
            assert(self.model() =~~= t);
            m.lemma_with_marker(parent_index as int, text_index as int, end);
            m.lemma_with_marker_tidy(parent_index as int, text_index as int, end);
            assert(m.ends == m0.ends);
        }
    }
}

} // verus!
