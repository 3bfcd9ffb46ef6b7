//! The edge-compressed suffix trie: its storage and the steps that
//! insert one suffix.

use crate::config::MatcherConfig;
use crate::index::total_len;
use crate::nodes::node_texts;
use crate::lines::Text;
use crate::model::{NodeModel, TrieModel};
use crate::record::Leaf;
use std::collections::HashMap;
use vstd::prelude::*;
use vstd::std_specs::hash::*;

verus! {

/// A registered document as the index sees it: its name and its
/// sentences, each already transliterated.
pub struct Document {
    pub name: Seq<char>,
    pub sentences: Seq<Seq<char>>,
}

/// What is known of the trie beyond the stored data.
pub struct Shape {
    pub docs: Seq<Document>,
    pub parent: Seq<int>,
    pub depth: Seq<int>,
    pub home: Seq<Seq<int>>,
    pub ends: Seq<Seq<int>>,
}

/// One node of the trie. Its edge is the span of the shared buffer that
/// starts at `edge_start_index` and has `edge_length` characters.
pub struct SubTrie {
    /// Index of this node in the node storage.
    pub node_index: usize,
    /// Child nodes by the code point of the first character of their edge.
    pub children: HashMap<u32, usize>,
    /// The suffixes that end exactly at this node.
    pub leaf_children: Vec<Leaf>,
    pub edge_start_index: usize,
    pub edge_length: usize,
}

impl SubTrie {
    /// The node as the model of the trie sees it.
    pub open spec fn model(&self) -> NodeModel {
        NodeModel {
            start: self.edge_start_index as int,
            len: self.edge_length as int,
            kids: self.children@,
            leaves: self.leaf_children@,
        }
    }

    /// A node without children or markers.
    pub fn empty(node_index: usize, edge_start_index: usize, edge_length: usize) -> (node: SubTrie)
        ensures
            node.node_index == node_index,
            node.edge_start_index == edge_start_index,
            node.edge_length == edge_length,
            node.children@ == Map::<u32, usize>::empty(),
            node.leaf_children@ == Seq::<Leaf>::empty(),
    {
        SubTrie {
            children: HashMap::new(),
            node_index,
            leaf_children: Vec::new(),
            edge_start_index,
            edge_length,
        }
    }

    /// The child whose edge starts with `edge`, if there is one.
    pub fn get_child_index(&self, edge: char) -> (child: Option<usize>)
        ensures
            match child {
                Some(c) => self.children@.contains_key(edge as u32) && self.children@[edge as u32]
                    == c,
                None => !self.children@.contains_key(edge as u32),
            },
    {
        broadcast use group_hash_axioms;

        let key: u32 = edge as u32;
        match self.children.get(&key) {
            Some(c) => Some(*c),
            None => None,
        }
    }

    /// Puts one more marker on the node.
    pub fn add_leaf_child(&mut self, key: Leaf)
        ensures
            final(self).leaf_children@ == old(self).leaf_children@.push(key),
            final(self).children == old(self).children,
            final(self).node_index == old(self).node_index,
            final(self).edge_start_index == old(self).edge_start_index,
            final(self).edge_length == old(self).edge_length,
    {
        self.leaf_children.push(key);
    }
}

/// How the rest of a text relates to the edge it was compared with.
pub enum EdgeMatchKind {
    /// The text runs through the whole edge.
    WholeMatch,
    /// The text ends before the edge does.
    EarlyStop,
    /// The text leaves the edge with the given character.
    Diverge(char),
}

/// The outcome of comparing a text with an edge.
pub struct EdgeMatch {
    pub overlap_type: EdgeMatchKind,
    /// Number of characters the text shares with the edge.
    pub shared_length: usize,
}

/// The index: one buffer with the text of all documents, the trie over
/// all their suffixes, and the documents' metadata.
pub struct SuffixTrie {
    pub(crate) str_storage: Vec<char>,
    pub(crate) node_storage: Vec<SubTrie>,
    pub(crate) texts: Vec<Text>,
    pub(crate) shape: Ghost<Shape>,
}

impl SuffixTrie {
    /// The mathematical model of the stored trie.
    pub open(crate) spec fn model(&self) -> TrieModel {
        TrieModel {
            buf: self.str_storage@,
            nodes: Seq::new(self.node_storage.len() as nat, |i: int| self.node_storage[i].model()),
            parent: self.shape@.parent,
            depth: self.shape@.depth,
            offsets: Seq::new(self.texts.len() as nat, |d: int| self.texts[d].offset as int),
            home: self.shape@.home,
            ends: self.shape@.ends,
        }
    }

    /// The stored node with the given index.
    pub open(crate) spec fn node(&self, i: int) -> SubTrie {
        self.node_storage[i]
    }

    /// The trie is well formed, and every node knows its own index.
    pub open(crate) spec fn built(&self) -> bool {
        &&& self.model().inv()
        &&& forall|i: int|
            0 <= i < self.node_storage.len() ==> (#[trigger] self.node_storage[i]).node_index == i
    }

    /// Everything but the trie itself is as it is in `other`.
    pub open(crate) spec fn same_texts(&self, other: &SuffixTrie) -> bool {
        &&& self.str_storage@ == other.str_storage@
        &&& self.texts@ == other.texts@
        &&& self.shape@.docs == other.shape@.docs
        &&& self.shape@.ends == other.shape@.ends
        &&& self.shape@.home.len() == other.shape@.home.len()
        &&& forall|d: int|
            0 <= d < self.shape@.home.len() ==> (#[trigger] self.shape@.home[d]).len()
                == other.shape@.home[d].len()
    }

    /// The buffer, the texts and the documents are as they are in `other`.
    pub open(crate) spec fn same_docs(&self, other: &SuffixTrie) -> bool {
        &&& self.str_storage@ == other.str_storage@
        &&& self.texts@ == other.texts@
        &&& self.shape@.docs == other.shape@.docs
    }

    /// Number of nodes of the trie, the root included. A well-formed
    /// index has, besides the root, one node for each text after which
    /// an indexed suffix ends or two of them part, which is at most two
    /// nodes for each character of its documents.
    pub fn len(&self) -> (count: usize)
        ensures
            count == self.model().nodes.len(),
            self.wf() ==> node_texts(self@).finite() && count == 1 + node_texts(self@).len(),
            self.wf() ==> 1 <= count <= 2 * total_len(self@) + 1,
    {
        proof {
            if self.wf() {
                self.lemma_node_count();
            }
        }
        self.node_storage.len()
    }

    /// The node with the given index.
    pub fn get_node(&self, node_index: usize) -> (node: &SubTrie)
        requires
            node_index < self.model().nodes.len(),
        ensures
            node.model() == self.model().nodes[node_index as int],
            *node == self.node(node_index as int),
    {
        &self.node_storage[node_index]
    }

    /// Adds a childless node below `parent_index`. Its edge is the span
    /// of `edge_length` characters at `char_index`, which starts with
    /// `edge`; the parent must not have a child for that character yet,
    /// and the text before the span must be the label of the parent.
    pub(crate) fn add_node(
        &mut self,
        parent_index: usize,
        edge: char,
        char_index: usize,
        edge_length: usize,
    ) -> (child_index: usize)
        requires
            old(self).built(),
            parent_index < old(self).model().nodes.len(),
            edge_length >= 1,
            char_index + edge_length <= old(self).model().buf.len(),
            edge == old(self).model().buf[char_index as int],
            old(self).model().depth[parent_index as int] <= char_index,
            old(self).model().buf.subrange(
                char_index - old(self).model().depth[parent_index as int],
                char_index as int,
            ) == old(self).model().label(parent_index as int),
            !old(self).model().nodes[parent_index as int].kids.contains_key(edge as u32),
        ensures
            final(self).built(),
            final(self).model() == old(self).model().with_node(
                parent_index as int,
                char_index as int,
                edge_length as int,
            ),
            child_index == old(self).model().nodes.len(),
            final(self).same_texts(old(self)),
    {
        broadcast use group_hash_axioms;

        let ghost m = self.model();
        let child_index: usize = self.node_storage.len();
        self.node_storage.push(SubTrie::empty(child_index, char_index, edge_length));
        self.node_storage[parent_index].children.insert(edge as u32, child_index);
        proof {
            let shape = self.shape@;
            self.shape@ = Shape {
                parent: shape.parent.push(parent_index as int),
                depth: shape.depth.push(shape.depth[parent_index as int] + edge_length),
                ..shape
            };
            let t = m.with_node(parent_index as int, char_index as int, edge_length as int);
            assert(self.model().nodes =~~= t.nodes);
            assert(self.model().offsets =~= t.offsets);
            assert(self.model() =~~= t);
            m.lemma_with_node(parent_index as int, char_index as int, edge_length as int);
        }
        child_index
    }

    /// Cuts the edge of a node in two. The node keeps the first
    /// `first_length` characters of its edge and gets a single child, a
    /// new node with the rest of the edge, which takes over the children
    /// and the markers the node had.
    pub(crate) fn split_edge(&mut self, node_index: usize, first_length: usize)
        requires
            old(self).built(),
            0 < node_index < old(self).model().nodes.len(),
            0 < first_length < old(self).model().nodes[node_index as int].len,
        ensures
            final(self).built(),
            final(self).model() == old(self).model().split(node_index as int, first_length as int),
            final(self).same_texts(old(self)),
    {
        broadcast use group_hash_axioms;

        let ghost m = self.model();
        proof {
            assert(m.node_ok(node_index as int));
            assert(m.nodes[node_index as int] == self.node_storage[node_index as int].model());
            assert(m.buf.len() == self.str_storage.len());
        }
        let new_index: usize = self.node_storage.len();
        let new_edge_start_index: usize = self.node_storage[node_index].edge_start_index
            + first_length;
        let new_edge_length: usize = self.node_storage[node_index].edge_length - first_length;
        let edge: char = self.str_storage[new_edge_start_index];
        let mut children: HashMap<u32, usize> = HashMap::new();
        let mut leaf_children: Vec<Leaf> = Vec::new();
        std::mem::swap(&mut self.node_storage[node_index].children, &mut children);
        std::mem::swap(&mut self.node_storage[node_index].leaf_children, &mut leaf_children);
        self.node_storage[node_index].edge_length = first_length;
        self.node_storage[node_index].children.insert(edge as u32, new_index);
        self.node_storage.push(
            SubTrie {
                node_index: new_index,
                children,
                leaf_children,
                edge_start_index: new_edge_start_index,
                edge_length: new_edge_length,
            },
        );
        proof {
            let shape = self.shape@;
            let t = m.split(node_index as int, first_length as int);
            self.shape@ = Shape { parent: t.parent, depth: t.depth, home: t.home, ..shape };
            assert(self.model().nodes =~~= t.nodes);
            assert(self.model().offsets =~= t.offsets);
            assert(self.model() =~~= t);
            m.lemma_split(node_index as int, first_length as int);
        }
    }

    /// Compares a text with the edge of a node, given that their first
    /// characters agree. The text is `text[from..until]`; the comparison
    /// goes on while the characters match under `config` and stops at
    /// the end of the edge, at the end of the text, or at the first pair
    /// of characters that do not match.
    pub fn consume_all_shared_length(
        &self,
        parent_index: usize,
        text: &Vec<char>,
        from: usize,
        until: usize,
        config: &MatcherConfig,
    ) -> (edge_match: EdgeMatch)
        requires
            self.built(),
            0 < parent_index < self.model().nodes.len(),
            from < until <= text.len(),
        ensures
            1 <= edge_match.shared_length <= self.model().nodes[parent_index as int].len,
            edge_match.shared_length <= until - from,
            forall|j: int|
                from + 1 <= j < from + edge_match.shared_length ==> config.matches(
                    #[trigger] text[j],
                    self.model().buf[self.model().nodes[parent_index as int].start + (j - from)],
                ),
            match edge_match.overlap_type {
                EdgeMatchKind::WholeMatch => edge_match.shared_length
                    == self.model().nodes[parent_index as int].len,
                EdgeMatchKind::EarlyStop => edge_match.shared_length
                    < self.model().nodes[parent_index as int].len && edge_match.shared_length
                    == until - from,
                EdgeMatchKind::Diverge(c) => edge_match.shared_length
                    < self.model().nodes[parent_index as int].len && edge_match.shared_length
                    < until - from && c == text[from + edge_match.shared_length]
                    && !config.matches(
                    c,
                    self.model().buf[self.model().nodes[parent_index as int].start
                        + edge_match.shared_length],
                ),
            },
    {
        proof {
            assert(self.model().node_ok(parent_index as int));
        }
        let ancestor = self.get_node(parent_index);
        let ancestor_start: usize = ancestor.edge_start_index;
        let ancestor_length: usize = ancestor.edge_length;
        let mut index_in_edge: usize = 1;
        while index_in_edge < ancestor_length
            invariant
                self.built(),
                0 < parent_index < self.model().nodes.len(),
                from < until <= text.len(),
                ancestor_start == self.model().nodes[parent_index as int].start,
                ancestor_length == self.model().nodes[parent_index as int].len,
                ancestor_start + ancestor_length <= self.str_storage.len(),
                1 <= index_in_edge <= ancestor_length,
                index_in_edge <= until - from,
                forall|j: int|
                    from + 1 <= j < from + index_in_edge ==> config.matches(
                        #[trigger] text[j],
                        self.str_storage[ancestor_start + (j - from)],
                    ),
            decreases ancestor_length - index_in_edge,
        {
            if from + index_in_edge >= until {
                return EdgeMatch {
                    overlap_type: EdgeMatchKind::EarlyStop,
                    shared_length: index_in_edge,
                };
            }
            let c: char = text[from + index_in_edge];
            let ancestor_c: char = self.str_storage[ancestor_start + index_in_edge];
            if !config.chars_match(&c, &ancestor_c) {
                return EdgeMatch {
                    overlap_type: EdgeMatchKind::Diverge(c),
                    shared_length: index_in_edge,
                };
            }
            index_in_edge = index_in_edge + 1;
        }
        EdgeMatch { overlap_type: EdgeMatchKind::WholeMatch, shared_length: ancestor_length }
    }
}

} // verus!
