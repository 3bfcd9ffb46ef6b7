//! The steps by which the trie grows, as functions of its model, each
//! with the proof that it keeps the trie well formed.

use crate::model::{lemma_span_at, lemma_span_prefix, NodeModel, TrieModel};
use crate::record::Leaf;
use vstd::prelude::*;

verus! {

impl TrieModel {
    /// The trie with more text at the end of its buffer.
    pub open spec fn with_text(self, more: Seq<char>) -> TrieModel {
        TrieModel { buf: self.buf + more, ..self }
    }

    /// The trie with one more document, of which nothing is indexed yet.
    pub open spec fn with_doc(self, offset: int) -> TrieModel {
        TrieModel {
            offsets: self.offsets.push(offset),
            home: self.home.push(Seq::empty()),
            ends: self.ends.push(Seq::empty()),
            ..self
        }
    }

    /// The trie with a new childless node below `p`, whose edge is the
    /// span of `len` characters at `at`.
    pub open spec fn with_node(self, p: int, at: int, len: int) -> TrieModel {
        let x = self.nodes.len();
        let k = self.buf[at] as u32;
        TrieModel {
            nodes: self.nodes.update(
                p,
                NodeModel { kids: self.nodes[p].kids.insert(k, x as usize), ..self.nodes[p] },
            ).push(NodeModel { start: at, len: len, kids: Map::empty(), leaves: Seq::empty() }),
            parent: self.parent.push(p),
            depth: self.depth.push(self.depth[p] + len),
            ..self
        }
    }

    /// The trie with the edge of `n` cut after `k` characters: `n` keeps
    /// the first part and one child, a new node that takes the rest of
    /// the edge with the children and markers `n` had.
    pub open spec fn split(self, n: int, k: int) -> TrieModel {
        let y = self.nodes.len() as int;
        let was = self.nodes[n];
        let key2 = self.buf[was.start + k] as u32;
        TrieModel {
            nodes: self.nodes.update(
                n,
                NodeModel {
                    start: was.start,
                    len: k,
                    kids: Map::empty().insert(key2, y as usize),
                    leaves: Seq::empty(),
                },
            ).push(
                NodeModel {
                    start: was.start + k,
                    len: was.len - k,
                    kids: was.kids,
                    leaves: was.leaves,
                },
            ),
            parent: Seq::new(
                self.parent.len() + 1,
                |i: int|
                    if i == y {
                        n
                    } else if self.parent[i] == n {
                        y
                    } else {
                        self.parent[i]
                    },
            ),
            depth: self.depth.update(n, self.depth[self.parent[n]] + k).push(self.depth[n]),
            home: Seq::new(
                self.home.len(),
                |d: int|
                    Seq::new(
                        self.home[d].len(),
                        |pos: int|
                            if self.home[d][pos] == n {
                                y
                            } else {
                                self.home[d][pos]
                            },
                    ),
            ),
            ..self
        }
    }

    /// The trie with a marker on `n` for the next position of document
    /// `d`, whose suffix ends at document offset `e`.
    pub open spec fn with_marker(self, n: int, d: int, e: int) -> TrieModel {
        let pos = self.home[d].len();
        TrieModel {
            nodes: self.nodes.update(
                n,
                NodeModel {
                    leaves: self.nodes[n].leaves.push(
                        Leaf { index_in_str: pos as usize, text_index: d as usize },
                    ),
                    ..self.nodes[n]
                },
            ),
            home: self.home.update(d, self.home[d].push(n)),
            ends: self.ends.update(d, self.ends[d].push(e)),
            ..self
        }
    }

    /// Whether every node holds a marker or has two children depends on
    /// the nodes alone.
    pub proof fn lemma_tidy_of_nodes(self, other: TrieModel)
        requires
            self.tidy(),
            other.nodes == self.nodes,
        ensures
            other.tidy(),
    {
        assert forall|n: int| 0 < n < other.nodes.len() implies #[trigger] other.forks(n) by {
            assert(self.forks(n));
        }
    }

    /// A new node below `p` leaves every node but the new one with a
    /// marker or two children, where `p` had a marker or a child under
    /// another key.
    pub proof fn lemma_with_node_tidy(self, p: int, at: int, len: int)
        requires
            0 <= p < self.nodes.len(),
            self.tidy_but(p),
            p == 0 || self.nodes[p].leaves.len() > 0 || exists|a: u32|
                a != self.buf[at] as u32 && #[trigger] self.nodes[p].kids.contains_key(a),
        ensures
            self.with_node(p, at, len).tidy_but(self.nodes.len() as int),
    {
        let t = self.with_node(p, at, len);
        let k = self.buf[at] as u32;
        assert forall|n: int| 0 < n < t.nodes.len() && n != self.nodes.len() implies #[trigger] t.forks(
            n,
        ) by {
            if n == p {
                if self.nodes[p].leaves.len() == 0 {
                    let a = choose|a: u32| a != k && #[trigger] self.nodes[p].kids.contains_key(a);
                    assert(t.nodes[p].kids.contains_key(a));
                    assert(t.nodes[p].kids.contains_key(k));
                }
            } else {
                assert(self.forks(n));
                assert(t.nodes[n] == self.nodes[n]);
            }
        }
    }

    /// A cut of the edge of `n` leaves every node but `n` with a marker or
    /// two children.
    pub proof fn lemma_split_tidy(self, n: int, k: int)
        requires
            0 < n < self.nodes.len(),
            self.tidy(),
        ensures
            self.split(n, k).tidy_but(n),
    {
        let t = self.split(n, k);
        assert forall|i: int| 0 < i < t.nodes.len() && i != n implies #[trigger] t.forks(i) by {
            if i == self.nodes.len() {
                assert(self.forks(n));
                assert(t.nodes[i].kids == self.nodes[n].kids);
                assert(t.nodes[i].leaves == self.nodes[n].leaves);
            } else {
                assert(self.forks(i));
                assert(t.nodes[i] == self.nodes[i]);
            }
        }
    }

    /// A marker on the one node that may lack one leaves every node with
    /// a marker or two children.
    pub proof fn lemma_with_marker_tidy(self, n: int, d: int, e: int)
        requires
            0 <= n < self.nodes.len(),
            self.tidy_but(n),
        ensures
            self.with_marker(n, d, e).tidy(),
    {
        let t = self.with_marker(n, d, e);
        assert forall|i: int| 0 < i < t.nodes.len() implies #[trigger] t.forks(i) by {
            if i != n {
                assert(self.forks(i));
                assert(t.nodes[i] == self.nodes[i]);
            }
        }
    }

    /// More text at the end of the buffer leaves the trie well formed.
    pub proof fn lemma_with_text(self, more: Seq<char>)
        requires
            self.inv(),
        ensures
            self.with_text(more).inv(),
    {
        let t = self.with_text(more);
        assert forall|x: int, y: int| 0 <= x <= y <= self.buf.len() implies #[trigger] t.buf.subrange(
            x,
            y,
        ) == self.buf.subrange(x, y) by {
            assert(t.buf.subrange(x, y) =~= self.buf.subrange(x, y));
        }
        assert forall|n: int| 0 <= n < self.nodes.len() implies #[trigger] t.label(n)
            == self.label(n) && (n > 0 ==> t.key(n) == self.key(n)) by {
            self.lemma_node_bounds(n);
            if n > 0 {
                assert(self.node_ok(n));
            }
        }
        assert forall|n: int| 0 < n < t.nodes.len() implies #[trigger] t.node_ok(n) by {
            assert(self.node_ok(n));
            self.lemma_node_bounds(n);
            self.lemma_node_bounds(self.parent[n]);
            assert(t.label(n) == self.label(n));
            assert(t.label(self.parent[n]) == self.label(self.parent[n]));
        }
        assert forall|n: int| 0 <= n < t.nodes.len() implies #[trigger] t.kids_ok(n) by {
            assert(self.kids_ok(n));
            assert forall|k: u32| #[trigger] t.nodes[n].kids.contains_key(k) implies {
                let c = t.nodes[n].kids[k] as int;
                0 < c < t.nodes.len() && t.parent[c] == n && t.key(c) == k
            } by {
                let c = self.nodes[n].kids[k] as int;
                assert(self.node_ok(c));
            }
        }
        assert forall|n: int| 0 <= n < t.nodes.len() implies #[trigger] t.leaves_ok(n) by {
            assert(self.leaves_ok(n));
        }
        assert forall|d: int, pos: int|
            0 <= d < t.home.len() && 0 <= pos < t.home[d].len() implies #[trigger] t.record_ok(
            d,
            pos,
        ) by {
            assert(self.record_ok(d, pos));
        }
        assert forall|a: int, h: int| #[trigger] t.clash(a, h) implies a == h by {
            self.lemma_node_bounds(a);
            self.lemma_node_bounds(h);
            assert(t.label(a) == self.label(a));
            assert(self.clash(a, h));
        }
    }

    /// One more document leaves the trie well formed.
    pub proof fn lemma_with_doc(self, offset: int)
        requires
            self.inv(),
        ensures
            self.with_doc(offset).inv(),
    {
        let t = self.with_doc(offset);
        assert forall|n: int| 0 < n < t.nodes.len() implies #[trigger] t.node_ok(n) by {
            assert(self.node_ok(n));
        }
        assert forall|n: int| 0 <= n < t.nodes.len() implies #[trigger] t.kids_ok(n) by {
            assert(self.kids_ok(n));
        }
        assert forall|n: int| 0 <= n < t.nodes.len() implies #[trigger] t.leaves_ok(n) by {
            assert(self.leaves_ok(n));
            assert forall|j: int| 0 <= j < t.nodes[n].leaves.len() implies t.is_record(
                #[trigger] t.nodes[n].leaves[j],
            ) && t.home_of(t.nodes[n].leaves[j]) == n by {
                let lf = self.nodes[n].leaves[j];
                assert(self.is_record(lf));
            }
        }
        assert forall|d: int, pos: int|
            0 <= d < t.home.len() && 0 <= pos < t.home[d].len() implies #[trigger] t.record_ok(
            d,
            pos,
        ) by {
            assert(self.record_ok(d, pos));
        }
        assert forall|a: int, h: int| #[trigger] t.clash(a, h) implies a == h by {
            assert(self.clash(a, h));
        }
    }

    /// A new node below `p` leaves the trie well formed, given that its
    /// edge lies right behind an occurrence of the label of `p` and that
    /// `p` has no child yet for the first character of the edge.
    pub proof fn lemma_with_node(self, p: int, at: int, len: int)
        requires
            self.inv(),
            self.is_node(p),
            len >= 1,
            0 <= at - self.depth[p],
            at + len <= self.buf.len(),
            self.buf.subrange(at - self.depth[p], at) == self.label(p),
            !self.nodes[p].kids.contains_key(self.buf[at] as u32),
            self.nodes.len() < usize::MAX,
        ensures
            self.with_node(p, at, len).inv(),
    {
        let t = self.with_node(p, at, len);
        let x = self.nodes.len() as int;
        let kx = self.buf[at] as u32;
        let dp = self.depth[p];
        self.lemma_node_bounds(p);
        assert forall|n: int| 0 <= n < x implies #[trigger] t.label(n) == self.label(n) && t.key(n)
            == self.key(n) && t.begin(n) == self.begin(n) && t.end(n) == self.end(n) by {}
        assert(t.begin(x) == at - dp);
        assert(t.end(x) == at + len);
        assert forall|n: int| 0 < n < t.nodes.len() implies #[trigger] t.node_ok(n) by {
            if n < x {
                assert(self.node_ok(n));
            } else {
                assert(t.nodes[p].kids.contains_key(kx));
            }
        }
        assert forall|n: int| 0 <= n < t.nodes.len() implies #[trigger] t.kids_ok(n) by {
            if n < x {
                assert(self.kids_ok(n));
                assert forall|k: u32| #[trigger] t.nodes[n].kids.contains_key(k) implies {
                    let c = t.nodes[n].kids[k] as int;
                    0 < c < t.nodes.len() && t.parent[c] == n && t.key(c) == k
                } by {
                    if n == p && k == kx {
                    } else {
                        assert(self.nodes[n].kids.contains_key(k));
                    }
                }
            }
        }
        assert forall|n: int| 0 <= n < t.nodes.len() implies #[trigger] t.leaves_ok(n) by {
            if n < x {
                assert(self.leaves_ok(n));
            }
        }
        assert forall|d: int, pos: int|
            0 <= d < t.home.len() && 0 <= pos < t.home[d].len() implies #[trigger] t.record_ok(
            d,
            pos,
        ) by {
            assert(self.record_ok(d, pos));
        }
        assert forall|a: int, h: int| #[trigger] t.clash(a, h) implies a == h by {
            if a < x && h < x {
                assert(t.label(a) == self.label(a));
                assert(t.begin(h) == self.begin(h));
                assert(t.parent[h] == self.parent[h]);
                assert(self.node_ok(h));
                assert(t.depth[t.parent[h]] == self.depth[self.parent[h]]);
                assert(t.depth[a] == self.depth[a]);
                assert(t.depth[h] == self.depth[h]);
                assert(self.clash(a, h));
            } else if a == x && h < x {
                self.lemma_node_bounds(h);
                lemma_span_prefix(self.buf, at - dp, self.begin(h), dp + len, dp);
                lemma_span_at(self.buf, at - dp, self.begin(h), dp + len, dp);
                self.lemma_child_exists(p, h);
            } else if a < x && h == x {
                self.lemma_node_bounds(a);
                lemma_span_prefix(self.buf, self.begin(a), at - dp, self.depth[a], dp);
                lemma_span_at(self.buf, self.begin(a), at - dp, self.depth[a], dp);
                self.lemma_child_exists(p, a);
            }
        }
    }

    /// Cutting an edge in two leaves the trie well formed.
    pub proof fn lemma_split(self, n: int, k: int)
        requires
            self.inv(),
            0 < n < self.nodes.len(),
            0 < k < self.nodes[n].len,
            self.nodes.len() < usize::MAX,
        ensures
            self.split(n, k).inv(),
    {
        let t = self.split(n, k);
        let y = self.nodes.len() as int;
        let pn = self.parent[n];
        let dk = self.depth[pn] + k;
        self.lemma_node_bounds(n);
        self.lemma_node_bounds(pn);
        assert(self.node_ok(n));
        assert(pn != n);
        assert(t.begin(n) == self.begin(n));
        assert(t.begin(y) == self.begin(n));
        assert(t.end(y) == self.end(n));
        assert(t.label(y) == self.label(n));
        assert forall|m: int| 0 <= m < y && m != n implies #[trigger] t.label(m) == self.label(m)
            && t.key(m) == self.key(m) && t.begin(m) == self.begin(m) && t.end(m) == self.end(m)
            && t.depth[m] == self.depth[m] by {}
        assert(t.key(n) == self.key(n));
        assert forall|m: int| 0 < m < t.nodes.len() implies #[trigger] t.node_ok(m) by {
            if m == n {
                assert(t.parent[n] == pn);
                assert(t.nodes[pn].kids == self.nodes[pn].kids);
                assert(t.label(pn) == self.label(pn));
            } else if m == y {
                assert(t.parent[y] == n);
                assert(t.nodes[n].kids.contains_key(t.key(y)));
                assert(t.buf.subrange(t.begin(y), t.begin(y) + t.depth[n]) =~= t.label(n));
            } else {
                assert(self.node_ok(m));
                let q = self.parent[m];
                if q == n {
                    assert(t.parent[m] == y);
                } else {
                    assert(t.parent[m] == q);
                    assert(t.nodes[q].kids == self.nodes[q].kids);
                }
            }
        }
        assert forall|m: int| 0 <= m < t.nodes.len() implies #[trigger] t.kids_ok(m) by {
            if m == n {
            } else if m == y {
                assert(self.kids_ok(n));
                assert forall|c: u32| #[trigger] t.nodes[y].kids.contains_key(c) implies {
                    let ch = t.nodes[y].kids[c] as int;
                    0 < ch < t.nodes.len() && t.parent[ch] == y && t.key(ch) == c
                } by {
                    assert(self.nodes[n].kids.contains_key(c));
                }
            } else {
                assert(self.kids_ok(m));
                assert forall|c: u32| #[trigger] t.nodes[m].kids.contains_key(c) implies {
                    let ch = t.nodes[m].kids[c] as int;
                    0 < ch < t.nodes.len() && t.parent[ch] == m && t.key(ch) == c
                } by {
                    assert(self.nodes[m].kids.contains_key(c));
                }
            }
        }
        assert forall|m: int| 0 <= m < t.nodes.len() implies #[trigger] t.leaves_ok(m) by {
            if m == n {
            } else if m == y {
                assert(self.leaves_ok(n));
                assert forall|j: int| 0 <= j < t.nodes[y].leaves.len() implies t.is_record(
                    #[trigger] t.nodes[y].leaves[j],
                ) && t.home_of(t.nodes[y].leaves[j]) == y by {
                    let lf = self.nodes[n].leaves[j];
                    assert(self.is_record(lf));
                }
            } else {
                assert(self.leaves_ok(m));
                assert forall|j: int| 0 <= j < t.nodes[m].leaves.len() implies t.is_record(
                    #[trigger] t.nodes[m].leaves[j],
                ) && t.home_of(t.nodes[m].leaves[j]) == m by {
                    let lf = self.nodes[m].leaves[j];
                    assert(self.is_record(lf));
                }
            }
        }
        assert forall|d: int, pos: int|
            0 <= d < t.home.len() && 0 <= pos < t.home[d].len() implies #[trigger] t.record_ok(
            d,
            pos,
        ) by {
            assert(self.record_ok(d, pos));
        }
        assert forall|a: int, h: int| #[trigger] t.clash(a, h) implies a == h by {
            if h == n {
                if a != n && a != y {
                    self.lemma_node_bounds(a);
                    assert(self.clash(a, n));
                }
            } else if h == y {
                if a != n && a != y {
                    self.lemma_node_bounds(a);
                    assert(self.clash(a, n));
                }
            } else {
                self.lemma_node_bounds(h);
                assert(self.node_ok(h));
                assert(t.depth[t.parent[h]] == self.depth[self.parent[h]]);
                if a == y {
                    assert(self.clash(n, h));
                } else if a == n {
                    assert(t.label(n) =~= self.buf.subrange(self.begin(n), self.begin(n) + dk));
                    self.lemma_same_edge(n, h, dk);
                } else {
                    assert(self.clash(a, h));
                }
            }
        }
    }

    /// A marker for the next position of a document leaves the trie well
    /// formed, given that it is put on the node whose label is the suffix
    /// that starts there.
    pub proof fn lemma_with_marker(self, n: int, d: int, e: int)
        requires
            self.inv(),
            self.is_node(n),
            0 <= d < self.home.len(),
            d <= usize::MAX,
            self.home[d].len() <= usize::MAX,
            0 <= self.offsets[d] + self.home[d].len() < self.offsets[d] + e <= self.buf.len(),
            self.depth[n] == e - self.home[d].len(),
            self.label(n) == self.buf.subrange(
                self.offsets[d] + self.home[d].len(),
                self.offsets[d] + e,
            ),
        ensures
            self.with_marker(n, d, e).inv(),
    {
        let t = self.with_marker(n, d, e);
        let pos = self.home[d].len() as int;
        let leaf = Leaf { index_in_str: pos as usize, text_index: d as usize };
        assert forall|m: int| 0 <= m < t.nodes.len() implies #[trigger] t.label(m) == self.label(m)
            && t.key(m) == self.key(m) by {}
        assert forall|m: int| 0 < m < t.nodes.len() implies #[trigger] t.node_ok(m) by {
            assert(self.node_ok(m));
        }
        assert forall|m: int| 0 <= m < t.nodes.len() implies #[trigger] t.kids_ok(m) by {
            assert(self.kids_ok(m));
        }
        assert forall|m: int| 0 <= m < t.nodes.len() implies #[trigger] t.leaves_ok(m) by {
            assert(self.leaves_ok(m));
            assert forall|j: int| 0 <= j < t.nodes[m].leaves.len() implies t.is_record(
                #[trigger] t.nodes[m].leaves[j],
            ) && t.home_of(t.nodes[m].leaves[j]) == m by {
                if m == n && j == self.nodes[n].leaves.len() {
                } else {
                    let lf = self.nodes[m].leaves[j];
                    assert(t.nodes[m].leaves[j] == lf);
                    assert(self.is_record(lf));
                }
            }
            if m == n {
                let was = self.nodes[n].leaves;
                assert forall|i: int| 0 <= i < was.len() implies was[i] != leaf by {
                    assert(self.is_record(was[i]));
                }
                assert(t.nodes[n].leaves.no_duplicates());
            }
        }
        assert forall|doc2: int, pos2: int|
            0 <= doc2 < t.home.len() && 0 <= pos2 < t.home[doc2].len() implies #[trigger] t.record_ok(
            doc2,
            pos2,
        ) by {
            if doc2 == d && pos2 == pos {
                assert(t.nodes[n].leaves[self.nodes[n].leaves.len() as int] == leaf);
            } else {
                assert(self.record_ok(doc2, pos2));
                let h = self.home[doc2][pos2];
                let lf = Leaf { index_in_str: pos2 as usize, text_index: doc2 as usize };
                let i = choose|i: int| 0 <= i < self.nodes[h].leaves.len() && self.nodes[h].leaves[i]
                    == lf;
                assert(t.nodes[h].leaves[i] == lf);
            }
        }
        assert forall|a: int, h: int| #[trigger] t.clash(a, h) implies a == h by {
            assert(self.clash(a, h));
        }
    }
}

} // verus!
