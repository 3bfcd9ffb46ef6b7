//! Which nodes the trie has, stated over the registered documents: one
//! node for each text at which an indexed suffix ends or two of them part,
//! besides the root.

use crate::index::total_len;
use crate::model::TrieModel;
use crate::record::Leaf;
use crate::trie::{Document, SuffixTrie};
use vstd::prelude::*;
use vstd::relations::injective_on;
use vstd::set_lib::{lemma_int_range, lemma_map_size, set_int_range};

verus! {

/// The leaf names a position of a registered document.
pub open spec fn is_indexed(docs: Seq<Document>, leaf: Leaf) -> bool {
    leaf.text_index < docs.len() && leaf.index_in_str < docs[leaf.text_index as int].text().len()
}

/// The suffix that is indexed for a position of a document: the text
/// from there to the end of the sentence.
pub open spec fn suffix_at(docs: Seq<Document>, leaf: Leaf) -> Seq<char> {
    docs[leaf.text_index as int].text().subrange(
        leaf.index_in_str as int,
        docs[leaf.text_index as int].suffix_end(leaf.index_in_str as int),
    )
}

/// `t` is one of the indexed suffixes.
pub open spec fn is_suffix(docs: Seq<Document>, t: Seq<char>) -> bool {
    exists|leaf: Leaf| is_indexed(docs, leaf) && #[trigger] suffix_at(docs, leaf) == t
}

/// The indexed suffix at `leaf` starts with `t` and goes on after it.
pub open spec fn goes_on(docs: Seq<Document>, t: Seq<char>, leaf: Leaf) -> bool {
    &&& is_indexed(docs, leaf)
    &&& t.len() < suffix_at(docs, leaf).len()
    &&& suffix_at(docs, leaf).take(t.len() as int) == t
}

/// Two indexed suffixes start with `t` and go on with different
/// characters.
pub open spec fn is_fork(docs: Seq<Document>, t: Seq<char>) -> bool {
    exists|x: Leaf, y: Leaf|
        #[trigger] goes_on(docs, t, x) && #[trigger] goes_on(docs, t, y) && suffix_at(
            docs,
            x,
        )[t.len() as int] != suffix_at(docs, y)[t.len() as int]
}

/// `t` is not empty, and an indexed suffix ends or two of them part
/// after it.
pub open spec fn needs_node(docs: Seq<Document>, t: Seq<char>) -> bool {
    t.len() > 0 && (is_suffix(docs, t) || is_fork(docs, t))
}

/// The texts that have a node of their own, besides the empty text of
/// the root.
pub open spec fn node_texts(docs: Seq<Document>) -> Set<Seq<char>> {
    Set::new(|t: Seq<char>| needs_node(docs, t))
}

impl TrieModel {
    /// The label of a node on the way to `h` is the start of the label
    /// of `h`.
    pub proof fn lemma_anc_take(self, a: int, h: int)
        requires
            self.inv(),
            self.is_node(h),
            self.anc(a, h),
        ensures
            self.is_node(a),
            0 <= self.depth[a] <= self.depth[h],
            self.label(a) == self.label(h).take(self.depth[a]),
    {
        self.lemma_anc_label(a, h);
        self.lemma_node_bounds(h);
        self.lemma_node_bounds(a);
        assert(self.buf.subrange(self.begin(h), self.begin(h) + self.depth[a]) =~= self.label(
            h,
        ).take(self.depth[a]));
    }

    /// No two nodes have the same label.
    pub proof fn lemma_label_unique(self, a: int, b: int)
        requires
            self.inv(),
            self.is_node(a),
            self.is_node(b),
            self.label(a) == self.label(b),
        ensures
            a == b,
    {
        self.lemma_node_bounds(a);
        self.lemma_node_bounds(b);
        if b > 0 {
            assert(self.buf.subrange(self.begin(b), self.begin(b) + self.depth[a]) =~= self.label(
                b,
            ));
            assert(self.clash(a, b));
        }
    }

    /// Below every node but the root there is a marker.
    pub proof fn lemma_marker_below(self, c: int) -> (leaf: Leaf)
        requires
            self.inv(),
            self.tidy(),
            0 < c < self.nodes.len(),
        ensures
            self.is_record(leaf),
            self.is_node(self.home_of(leaf)),
            self.anc(c, self.home_of(leaf)),
        decreases self.buf.len() - self.depth[c],
    {
        self.lemma_node_bounds(c);
        assert(self.forks(c));
        if self.nodes[c].leaves.len() > 0 {
            assert(self.leaves_ok(c));
            self.nodes[c].leaves[0]
        } else {
            let (a, b) = choose|a: u32, b: u32|
                a != b && #[trigger] self.nodes[c].kids.contains_key(a)
                    && #[trigger] self.nodes[c].kids.contains_key(b);
            assert(self.kids_ok(c));
            let k = self.nodes[c].kids[a] as int;
            self.lemma_node_bounds(k);
            let leaf = self.lemma_marker_below(k);
            assert(self.anc(c, c));
            assert(self.anc(c, k));
            self.lemma_anc_trans(c, k, self.home_of(leaf));
            leaf
        }
    }
}

impl SuffixTrie {
    /// The node that holds the marker of an indexed suffix has the
    /// suffix for its label.
    pub(crate) proof fn lemma_home_label(&self, leaf: Leaf)
        requires
            self.wf(),
            is_indexed(self@, leaf),
        ensures
            self.model().is_record(leaf),
            0 < self.model().home_of(leaf) < self.model().nodes.len(),
            self.model().label(self.model().home_of(leaf)) == suffix_at(self@, leaf),
            self.model().depth[self.model().home_of(leaf)] == suffix_at(self@, leaf).len(),
    {
        self.lemma_wf();
        self.lemma_holds(leaf);
        let m = self.model();
        assert(m.record_ok(leaf.text_index as int, leaf.index_in_str as int));
        m.lemma_node_bounds(m.home_of(leaf));
    }

    /// Below each child of a node an indexed suffix passes: it starts
    /// with the node's label and goes on with the child's character.
    pub(crate) proof fn lemma_child_goes_on(&self, n: int, k: u32) -> (x: Leaf)
        requires
            self.wf(),
            0 <= n < self.model().nodes.len(),
            self.model().nodes[n].kids.contains_key(k),
        ensures
            goes_on(self@, self.model().label(n), x),
            suffix_at(self@, x)[self.model().depth[n]] as u32 == k,
    {
        self.lemma_wf();
        let m = self.model();
        assert(m.kids_ok(n));
        let c = m.nodes[n].kids[k] as int;
        assert(m.node_ok(c));
        m.lemma_node_bounds(c);
        m.lemma_node_bounds(n);
        let x = m.lemma_marker_below(c);
        self.lemma_holds(x);
        self.lemma_home_label(x);
        let h = m.home_of(x);
        m.lemma_anc_take(c, h);
        let s = suffix_at(self@, x);
        let dn = m.depth[n];
        assert(m.label(n) =~= m.label(c).take(dn));
        assert(s.take(dn) =~= m.label(c).take(dn));
        assert(s[dn] == m.label(c)[dn]);
        assert(m.label(c)[dn] == m.buf[m.nodes[c].start]);
        x
    }

    /// Every node but the root has a label after which an indexed suffix
    /// ends or two of them part.
    pub(crate) proof fn lemma_label_needed(&self, n: int)
        requires
            self.wf(),
            0 < n < self.model().nodes.len(),
        ensures
            needs_node(self@, self.model().label(n)),
    {
        self.lemma_wf();
        let m = self.model();
        m.lemma_node_bounds(n);
        assert(m.forks(n));
        if m.nodes[n].leaves.len() > 0 {
            assert(m.leaves_ok(n));
            let leaf = m.nodes[n].leaves[0];
            self.lemma_holds(leaf);
            self.lemma_home_label(leaf);
            assert(is_suffix(self@, m.label(n)));
        } else {
            let (a, b) = choose|a: u32, b: u32|
                a != b && #[trigger] m.nodes[n].kids.contains_key(a)
                    && #[trigger] m.nodes[n].kids.contains_key(b);
            let x = self.lemma_child_goes_on(n, a);
            let y = self.lemma_child_goes_on(n, b);
            assert(is_fork(self@, m.label(n)));
        }
    }

    /// On the way to the marker of an indexed suffix that goes on after
    /// `t`, the node whose edge holds the last character of `t`.
    pub(crate) proof fn lemma_covering(&self, t: Seq<char>, x: Leaf) -> (a: int)
        requires
            self.wf(),
            t.len() > 0,
            goes_on(self@, t, x),
        ensures
            0 < a < self.model().nodes.len(),
            self.model().depth[self.model().parent[a]] < t.len() <= self.model().depth[a],
            self.model().label(a).take(t.len() as int) == t,
            t.len() < self.model().depth[a] ==> self.model().label(a)[t.len() as int] == suffix_at(
                self@,
                x,
            )[t.len() as int],
    {
        self.lemma_wf();
        let m = self.model();
        self.lemma_home_label(x);
        let h = m.home_of(x);
        let a = m.lemma_cover(h, t.len() as int);
        m.lemma_anc_take(a, h);
        m.lemma_node_bounds(a);
        assert(m.label(a).take(t.len() as int) =~= suffix_at(self@, x).take(t.len() as int));
        a
    }

    /// A text after which an indexed suffix ends or two of them part is
    /// the label of a node.
    pub(crate) proof fn lemma_needed_has_node(&self, t: Seq<char>) -> (n: int)
        requires
            self.wf(),
            needs_node(self@, t),
        ensures
            0 < n < self.model().nodes.len(),
            self.model().label(n) == t,
    {
        self.lemma_wf();
        let m = self.model();
        if is_suffix(self@, t) {
            let leaf = choose|leaf: Leaf| is_indexed(self@, leaf) && #[trigger] suffix_at(self@, leaf) == t;
            self.lemma_home_label(leaf);
            m.home_of(leaf)
        } else {
            let (x, y) = choose|x: Leaf, y: Leaf|
                #[trigger] goes_on(self@, t, x) && #[trigger] goes_on(self@, t, y) && suffix_at(
                    self@,
                    x,
                )[t.len() as int] != suffix_at(self@, y)[t.len() as int];
            let a = self.lemma_covering(t, x);
            let b = self.lemma_covering(t, y);
            let len = t.len() as int;
            m.lemma_node_bounds(a);
            m.lemma_node_bounds(b);
            assert(m.buf.subrange(m.begin(a), m.begin(a) + len) =~= m.label(a).take(len));
            assert(m.buf.subrange(m.begin(b), m.begin(b) + len) =~= m.label(b).take(len));
            m.lemma_same_edge(a, b, len);
            assert(m.label(a) =~= m.label(a).take(len));
            a
        }
    }

    /// The trie has one node for the root and one for each text after
    /// which an indexed suffix ends or two of them part.
    pub proof fn lemma_node_count(&self)
        requires
            self.wf(),
        ensures
            node_texts(self@).finite(),
            self.model().nodes.len() == 1 + node_texts(self@).len(),
            self.model().nodes.len() <= 2 * total_len(self@) + 1,
    {
        self.lemma_wf();
        let m = self.model();
        let count = m.nodes.len() as int;
        let x = set_int_range(1, count);
        let f = |n: int| m.label(n);
        let y = node_texts(self@);
        lemma_int_range(1, count);
        assert(injective_on(f, x)) by {
            assert forall|a: int, b: int|
                x.contains(a) && x.contains(b) && #[trigger] f(a) == #[trigger] f(b) implies a
                == b by {
                m.lemma_label_unique(a, b);
            }
        }
        assert(x.map(f) =~= y) by {
            assert forall|t: Seq<char>| x.map(f).contains(t) <==> y.contains(t) by {
                if x.map(f).contains(t) {
                    let n = choose|n: int| x.contains(n) && t == f(n);
                    self.lemma_label_needed(n);
                }
                if y.contains(t) {
                    let n = self.lemma_needed_has_node(t);
                    assert(x.contains(n));
                    assert(t == f(n));
                }
            }
        }
        lemma_map_size(x, y, f);
    }
}

} // verus!
