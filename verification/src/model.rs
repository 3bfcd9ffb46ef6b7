//! The mathematical model of the suffix trie and the facts that hold of
//! every well-formed trie.
//!
//! A node's label is the text read on the way from the root to the end of
//! the node's edge. Every label occurs in the buffer right where the
//! node's edge lies: it ends where the edge ends and is as long as the
//! node is deep.

use crate::record::Leaf;
use vstd::prelude::*;

verus! {

/// One node: its edge as a span of the buffer, its children by the code
/// point of their edge's first character, and its leaf markers.
#[verifier::ext_equal]
pub struct NodeModel {
    pub start: int,
    pub len: int,
    pub kids: Map<u32, usize>,
    pub leaves: Seq<Leaf>,
}

/// The trie with what is known of it beyond the stored data: each node's
/// parent and depth, and for each indexed suffix the node that holds its
/// marker and the offset at which the suffix ends.
#[verifier::ext_equal]
pub struct TrieModel {
    pub buf: Seq<char>,
    pub nodes: Seq<NodeModel>,
    pub parent: Seq<int>,
    pub depth: Seq<int>,
    /// Start of each document in the buffer.
    pub offsets: Seq<int>,
    /// Per document and indexed position, the node holding the marker.
    pub home: Seq<Seq<int>>,
    /// Per document and indexed position, the document offset at which
    /// the indexed suffix ends.
    pub ends: Seq<Seq<int>>,
}

/// Equal spans stay equal when shortened.
pub proof fn lemma_span_prefix(s: Seq<char>, x: int, y: int, k: int, j: int)
    requires
        0 <= x,
        0 <= y,
        0 <= j <= k,
        x + k <= s.len(),
        y + k <= s.len(),
        s.subrange(x, x + k) == s.subrange(y, y + k),
    ensures
        s.subrange(x, x + j) == s.subrange(y, y + j),
{
    let a = s.subrange(x, x + j);
    let b = s.subrange(y, y + j);
    assert forall|i: int| 0 <= i < j implies #[trigger] a[i] == b[i] by {
        assert(s.subrange(x, x + k)[i] == s.subrange(y, y + k)[i]);
    }
    assert(a =~= b);
}

/// Equal spans hold equal characters.
pub proof fn lemma_span_at(s: Seq<char>, x: int, y: int, k: int, i: int)
    requires
        0 <= x,
        0 <= y,
        0 <= i < k,
        x + k <= s.len(),
        y + k <= s.len(),
        s.subrange(x, x + k) == s.subrange(y, y + k),
    ensures
        s[x + i] == s[y + i],
{
    let a = s.subrange(x, x + k);
    let b = s.subrange(y, y + k);
    assert(a[i] == s[x + i]);
    assert(b[i] == s[y + i]);
}

/// How many characters the spans of `buf` that start at `a` and at `b`
/// have in common at their start, looking at no more than `limit`.
pub open spec fn common_len(buf: Seq<char>, a: int, b: int, limit: int) -> int
    decreases limit,
{
    if limit <= 0 || buf[a] != buf[b] {
        0
    } else {
        1 + common_len(buf, a + 1, b + 1, limit - 1)
    }
}

/// Two spans that agree in their first `k` characters, and differ in the
/// next or are not looked at any further, have `k` characters in common.
pub proof fn lemma_common_len(buf: Seq<char>, a: int, b: int, limit: int, k: int)
    requires
        0 <= k <= limit,
        forall|i: int| 0 <= i < k ==> #[trigger] buf[a + i] == buf[b + i],
        k == limit || buf[a + k] != buf[b + k],
    ensures
        common_len(buf, a, b, limit) == k,
    decreases k,
{
    if k > 0 {
        assert(buf[a + 0] == buf[b + 0]);
        assert forall|i: int| 0 <= i < k - 1 implies #[trigger] buf[a + 1 + i] == buf[b + 1 + i] by {
            assert(buf[a + (i + 1)] == buf[b + (i + 1)]);
        }
        lemma_common_len(buf, a + 1, b + 1, limit - 1, k - 1);
    }
}

/// Different code points come from different characters.
pub proof fn lemma_code_injective(a: char, b: char)
    ensures
        (a as u32 == b as u32) <==> a == b,
{
}

impl TrieModel {
    /// `n` is the index of a node.
    pub open spec fn is_node(self, n: int) -> bool {
        0 <= n < self.nodes.len()
    }

    /// Where the edge of `n` ends in the buffer.
    pub open spec fn end(self, n: int) -> int {
        self.nodes[n].start + self.nodes[n].len
    }

    /// Where the label of `n` begins in the buffer.
    pub open spec fn begin(self, n: int) -> int {
        self.end(n) - self.depth[n]
    }

    /// The text read from the root to the end of the edge of `n`.
    pub open spec fn label(self, n: int) -> Seq<char> {
        self.buf.subrange(self.begin(n), self.end(n))
    }

    /// The key under which `n` hangs below its parent.
    pub open spec fn key(self, n: int) -> u32 {
        self.buf[self.nodes[n].start] as u32
    }

    /// The root has the empty edge, and every list is as long as it has
    /// to be.
    pub open spec fn root_ok(self) -> bool {
        &&& self.nodes.len() >= 1
        &&& self.parent.len() == self.nodes.len()
        &&& self.depth.len() == self.nodes.len()
        &&& self.home.len() == self.offsets.len()
        &&& self.ends.len() == self.offsets.len()
        &&& self.nodes[0].start == 0
        &&& self.nodes[0].len == 0
        &&& self.depth[0] == 0
        &&& forall|d: int|
            0 <= d < self.home.len() ==> (#[trigger] self.home[d]).len() == self.ends[d].len()
    }

    /// What holds of every node but the root: its edge is a span of the
    /// buffer, it hangs below its parent under its edge's first
    /// character, and its label starts with its parent's label.
    pub open spec fn node_ok(self, n: int) -> bool {
        let p = self.parent[n];
        &&& self.nodes[n].len >= 1
        &&& 0 <= self.nodes[n].start
        &&& self.end(n) <= self.buf.len()
        &&& 0 <= p < self.nodes.len()
        &&& self.depth[p] >= 0
        &&& self.depth[n] == self.depth[p] + self.nodes[n].len
        &&& self.begin(n) >= 0
        &&& self.nodes[p].kids.contains_key(self.key(n))
        &&& self.nodes[p].kids[self.key(n)] == n
        &&& self.buf.subrange(self.begin(n), self.begin(n) + self.depth[p]) == self.label(p)
    }

    /// Every child entry of `n` names a node that hangs below `n` under
    /// that very key.
    pub open spec fn kids_ok(self, n: int) -> bool {
        forall|k: u32| #[trigger]
            self.nodes[n].kids.contains_key(k) ==> {
                let c = self.nodes[n].kids[k] as int;
                0 < c < self.nodes.len() && self.parent[c] == n && self.key(c) == k
            }
    }

    /// The leaf names an indexed suffix.
    pub open spec fn is_record(self, leaf: Leaf) -> bool {
        leaf.text_index < self.home.len() && leaf.index_in_str
            < self.home[leaf.text_index as int].len()
    }

    /// The node that holds the marker of the suffix named by `leaf`.
    pub open spec fn home_of(self, leaf: Leaf) -> int {
        self.home[leaf.text_index as int][leaf.index_in_str as int]
    }

    /// The markers of `n` are distinct records whose home is `n`.
    pub open spec fn leaves_ok(self, n: int) -> bool {
        &&& self.nodes[n].leaves.no_duplicates()
        &&& forall|j: int|
            0 <= j < self.nodes[n].leaves.len() ==> self.is_record(#[trigger] self.nodes[n].leaves[j])
                && self.home_of(self.nodes[n].leaves[j]) == n
    }

    /// Where the suffix of document `d` at `pos` begins in the buffer.
    pub open spec fn suffix_begin(self, d: int, pos: int) -> int {
        self.offsets[d] + pos
    }

    /// Where the suffix of document `d` at `pos` ends in the buffer.
    pub open spec fn suffix_end(self, d: int, pos: int) -> int {
        self.offsets[d] + self.ends[d][pos]
    }

    /// The indexed suffix of document `d` that starts at `pos`.
    pub open spec fn suffix(self, d: int, pos: int) -> Seq<char> {
        self.buf.subrange(self.suffix_begin(d, pos), self.suffix_end(d, pos))
    }

    /// The suffix of `d` at `pos` is not empty, and its marker sits on
    /// the node whose label is the suffix.
    pub open spec fn record_ok(self, d: int, pos: int) -> bool {
        let h = self.home[d][pos];
        &&& 0 <= h < self.nodes.len()
        &&& d <= usize::MAX
        &&& pos <= usize::MAX
        &&& self.nodes[h].leaves.contains(Leaf { index_in_str: pos as usize, text_index: d as usize })
        &&& 0 <= self.suffix_begin(d, pos) < self.suffix_end(d, pos) <= self.buf.len()
        &&& self.depth[h] == self.suffix_end(d, pos) - self.suffix_begin(d, pos)
        &&& self.label(h) == self.suffix(d, pos)
    }

    /// The label of `a` is read along the path to `h` and ends on the
    /// edge of `h`.
    pub open spec fn clash(self, a: int, h: int) -> bool {
        &&& 0 <= a < self.nodes.len()
        &&& 0 < h < self.nodes.len()
        &&& self.depth[self.parent[h]] < self.depth[a] <= self.depth[h]
        &&& self.label(a) == self.buf.subrange(self.begin(h), self.begin(h) + self.depth[a])
    }

    /// The trie is well formed.
    pub open spec fn inv(self) -> bool {
        &&& self.root_ok()
        &&& forall|n: int| 0 < n < self.nodes.len() ==> #[trigger] self.node_ok(n)
        &&& forall|n: int| 0 <= n < self.nodes.len() ==> #[trigger] self.kids_ok(n)
        &&& forall|n: int| 0 <= n < self.nodes.len() ==> #[trigger] self.leaves_ok(n)
        &&& forall|d: int, pos: int|
            0 <= d < self.home.len() && 0 <= pos < self.home[d].len() ==> #[trigger] self.record_ok(
                d,
                pos,
            )
        &&& forall|a: int, h: int| #[trigger] self.clash(a, h) ==> a == h
    }

    /// `n` holds a marker or has at least two children.
    pub open spec fn forks(self, n: int) -> bool {
        self.nodes[n].leaves.len() > 0 || exists|a: u32, b: u32|
            a != b && #[trigger] self.nodes[n].kids.contains_key(a)
                && #[trigger] self.nodes[n].kids.contains_key(b)
    }

    /// Every node holds a marker or has at least two children, but for
    /// the root and for `x`.
    pub open spec fn tidy_but(self, x: int) -> bool {
        forall|n: int| 0 < n < self.nodes.len() && n != x ==> #[trigger] self.forks(n)
    }

    /// No node is there without need: every node but the root holds a
    /// marker or has at least two children.
    pub open spec fn tidy(self) -> bool {
        self.tidy_but(0)
    }

    /// How many characters the text `buf[at..until]` shares with the
    /// edge of `n`, from the start of both.
    pub open spec fn along(self, n: int, at: int, until: int) -> int {
        common_len(
            self.buf,
            at,
            self.nodes[n].start,
            if self.nodes[n].len <= until - at {
                self.nodes[n].len
            } else {
                until - at
            },
        )
    }

    /// `h` is not the root, and its parent is a node less deep than it.
    pub open spec fn climbs(self, h: int) -> bool {
        0 < h < self.nodes.len() && 0 <= self.parent[h] < self.nodes.len() && 0
            <= self.depth[self.parent[h]] < self.depth[h]
    }

    /// `a` is `h` or lies on the way from the root to `h`.
    pub open spec fn anc(self, a: int, h: int) -> bool
        decreases
            (if self.climbs(h) {
                self.depth[h]
            } else {
                0
            }),
    {
        if a == h {
            true
        } else if self.climbs(h) {
            self.anc(a, self.parent[h])
        } else {
            false
        }
    }

    /// Basic bounds of a node.
    pub proof fn lemma_node_bounds(self, n: int)
        requires
            self.inv(),
            self.is_node(n),
        ensures
            0 <= self.begin(n) <= self.end(n) <= self.buf.len(),
            self.depth[n] >= 0,
            self.depth[n] == self.end(n) - self.begin(n),
            n > 0 ==> self.climbs(n) && self.depth[n] >= 1 && self.nodes[n].start == self.begin(n)
                + self.depth[self.parent[n]],
            n == 0 ==> self.depth[n] == 0 && self.begin(n) == 0 && self.end(n) == 0,
            self.label(n).len() == self.depth[n],
    {
        if n > 0 {
            assert(self.node_ok(n));
        }
    }

    /// The root lies on the way to every node.
    pub proof fn lemma_root_anc(self, h: int)
        requires
            self.inv(),
            self.is_node(h),
        ensures
            self.anc(0, h),
        decreases self.depth[h],
    {
        if h != 0 {
            self.lemma_node_bounds(h);
            self.lemma_root_anc(self.parent[h]);
        }
    }

    /// The label of an ancestor starts the label of its descendant.
    pub proof fn lemma_anc_label(self, a: int, h: int)
        requires
            self.inv(),
            self.is_node(h),
            self.anc(a, h),
        ensures
            self.is_node(a),
            self.depth[a] <= self.depth[h],
            self.buf.subrange(self.begin(h), self.begin(h) + self.depth[a]) == self.label(a),
        decreases self.depth[h],
    {
        self.lemma_node_bounds(h);
        if a == h {
        } else {
            let p = self.parent[h];
            assert(self.node_ok(h));
            self.lemma_anc_label(a, p);
            self.lemma_node_bounds(p);
            self.lemma_node_bounds(a);
            // label(a) starts label(p), which starts label(h)
            lemma_span_prefix(
                self.buf,
                self.begin(h),
                self.begin(p),
                self.depth[p],
                self.depth[a],
            );
        }
    }

    /// Ancestry is transitive.
    pub proof fn lemma_anc_trans(self, a: int, b: int, h: int)
        requires
            self.inv(),
            self.is_node(h),
            self.anc(a, b),
            self.anc(b, h),
        ensures
            self.anc(a, h),
        decreases self.depth[h],
    {
        if b != h {
            self.lemma_node_bounds(h);
            self.lemma_anc_trans(a, b, self.parent[h]);
        }
    }

    /// On the way to `h`, some node's edge covers each depth from 1 to
    /// the depth of `h`.
    pub proof fn lemma_cover(self, h: int, m: int) -> (a: int)
        requires
            self.inv(),
            self.is_node(h),
            0 < m <= self.depth[h],
        ensures
            self.anc(a, h),
            0 < a < self.nodes.len(),
            self.depth[self.parent[a]] < m <= self.depth[a],
        decreases self.depth[h],
    {
        self.lemma_node_bounds(h);
        let p = self.parent[h];
        if self.depth[p] < m {
            h
        } else {
            self.lemma_cover(p, m)
        }
    }

    /// Two nodes whose labels agree up to a depth that lies on both
    /// their edges are one node.
    pub proof fn lemma_same_edge(self, n: int, h: int, m: int)
        requires
            self.inv(),
            0 < n < self.nodes.len(),
            0 < h < self.nodes.len(),
            self.depth[self.parent[n]] < m <= self.depth[n],
            self.depth[self.parent[h]] < m <= self.depth[h],
            self.buf.subrange(self.begin(n), self.begin(n) + m) == self.buf.subrange(
                self.begin(h),
                self.begin(h) + m,
            ),
        ensures
            n == h,
    {
        let pn = self.parent[n];
        let ph = self.parent[h];
        self.lemma_node_bounds(n);
        self.lemma_node_bounds(h);
        self.lemma_node_bounds(pn);
        self.lemma_node_bounds(ph);
        assert(self.node_ok(n));
        assert(self.node_ok(h));
        let bn = self.begin(n);
        let bh = self.begin(h);
        if self.depth[pn] == self.depth[ph] {
            lemma_span_prefix(self.buf, bn, bh, m, self.depth[pn]);
            assert(self.label(pn) == self.label(ph));
            if ph > 0 {
                assert(self.label(ph) =~= self.buf.subrange(
                    self.begin(ph),
                    self.begin(ph) + self.depth[pn],
                ));
                assert(self.clash(pn, ph));
            }
            assert(pn == ph);
            lemma_span_at(self.buf, bn, bh, m, self.depth[pn]);
            assert(self.key(n) == self.key(h));
        } else if self.depth[ph] < self.depth[pn] {
            lemma_span_prefix(self.buf, bn, bh, m, self.depth[pn]);
            assert(self.clash(pn, h));
        } else {
            lemma_span_prefix(self.buf, bn, bh, m, self.depth[ph]);
            assert(self.clash(ph, n));
        }
    }

    /// A node whose label starts with the label of `p` and goes on hangs
    /// below a child of `p`: `p` has a child for the next character.
    pub proof fn lemma_child_exists(self, p: int, h: int)
        requires
            self.inv(),
            self.is_node(p),
            self.is_node(h),
            self.depth[h] > self.depth[p],
            self.buf.subrange(self.begin(h), self.begin(h) + self.depth[p]) == self.label(p),
        ensures
            self.nodes[p].kids.contains_key(self.buf[self.begin(h) + self.depth[p]] as u32),
            self.anc(self.nodes[p].kids[self.buf[self.begin(h) + self.depth[p]] as u32] as int, h),
    {
        self.lemma_node_bounds(p);
        self.lemma_node_bounds(h);
        let dp = self.depth[p];
        let a = self.lemma_cover(h, dp + 1);
        self.lemma_anc_label(a, h);
        self.lemma_node_bounds(a);
        let q = self.parent[a];
        self.lemma_node_bounds(q);
        assert(self.node_ok(a));
        let ba = self.begin(a);
        let bh = self.begin(h);
        // label(a) is read at both places
        assert(self.buf.subrange(bh, bh + self.depth[a]) == self.buf.subrange(
            ba,
            ba + self.depth[a],
        ));
        lemma_span_prefix(self.buf, bh, ba, self.depth[a], dp);
        lemma_span_at(self.buf, bh, ba, self.depth[a], dp);
        if self.depth[q] == dp {
            assert(self.label(q) == self.label(p));
            if p > 0 {
                assert(self.label(p) =~= self.buf.subrange(self.begin(p), self.begin(p) + dp));
                assert(self.clash(q, p));
            }
            assert(q == p);
        } else {
            assert(self.clash(p, a));
        }
    }

}

} // verus!
