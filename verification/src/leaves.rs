//! Collecting the leaf markers below a node.

use crate::model::TrieModel;
use crate::record::{leaves_strictly_ascending, sort_leaves, Leaf};
use crate::trie::{SubTrie, SuffixTrie};
use vstd::prelude::*;
use vstd::seq_lib::lemma_no_dup_in_concat;
use vstd::std_specs::hash::*;
use vstd::std_specs::iter::IteratorSpec;

verus! {

/// The entries list every key of the map once, each with its value.
pub open spec fn lists_map(entries: Seq<(u32, usize)>, map: Map<u32, usize>) -> bool {
    &&& forall|i: int|
        0 <= i < entries.len() ==> map.contains_key((#[trigger] entries[i]).0) && map[entries[i].0]
            == entries[i].1
    &&& forall|k: u32|
        map.contains_key(k) ==> exists|i: int| 0 <= i < entries.len() && (#[trigger] entries[i]).0 == k
    &&& forall|i: int, j: int|
        0 <= i < j < entries.len() ==> (#[trigger] entries[i]).0 != (#[trigger] entries[j]).0
}

impl SubTrie {
    /// The children of the node as a list of keys and node indices, in
    /// no particular order.
    pub fn child_entries(&self) -> (entries: Vec<(u32, usize)>)
        ensures
            lists_map(entries@, self.children@),
    {
        broadcast use group_hash_axioms;

        let mut entries: Vec<(u32, usize)> = Vec::new();
        for kv in it: self.children.iter()
            invariant
                entries.len() == it.index(),
                it.seq() == self.children.iter().remaining(),
                it.seq().no_duplicates(),
                forall|i: int|
                    0 <= i < entries.len() ==> (#[trigger] entries[i]).0 == *it.seq()[i].0
                        && entries[i].1 == *it.seq()[i].1,
        {
            entries.push((*kv.0, *kv.1));
        }
        proof {
            let map = self.children@;
            let v = self.children.iter().remaining();
            assert(entries.len() == v.len());
            assert forall|i: int| 0 <= i < entries.len() implies map.contains_key(
                (#[trigger] entries[i]).0,
            ) && map[entries[i].0] == entries[i].1 by {
                assert(map.contains_key(*v[i].0) && map[*v[i].0] == *v[i].1);
            }
            assert forall|k: u32| map.contains_key(k) implies exists|i: int|
                0 <= i < entries.len() && (#[trigger] entries[i]).0 == k by {
                assert(v.contains((&k, &map[k])));
                let i = choose|i: int| 0 <= i < v.len() && v[i] == (&k, &map[k]);
                assert(entries[i].0 == k);
            }
            assert forall|i: int, j: int| 0 <= i < j < entries.len() implies (#[trigger] entries[i]).0
                != (#[trigger] entries[j]).0 by {
                if entries[i].0 == entries[j].0 {
                    assert(map.contains_key(*v[i].0) && map[*v[i].0] == *v[i].1);
                    assert(map.contains_key(*v[j].0) && map[*v[j].0] == *v[j].1);
                    assert(v[i] == v[j]);
                }
            }
        }
        entries
    }
}

/// The node indices named by a list of child entries.
pub open spec fn targets(entries: Seq<(u32, usize)>) -> Seq<int> {
    Seq::new(entries.len(), |i: int| entries[i].1 as int)
}

/// The indices held by a work list.
pub open spec fn as_ints(list: Seq<usize>) -> Seq<int> {
    Seq::new(list.len(), |i: int| list[i] as int)
}

/// Distinct numbers below a bound are at most as many as the bound.
pub proof fn lemma_distinct_bounded(s: Seq<int>, bound: int)
    requires
        0 <= bound,
        s.no_duplicates(),
        forall|i: int| 0 <= i < s.len() ==> 0 <= #[trigger] s[i] < bound,
    ensures
        s.len() <= bound,
{
    if s.len() > 0 {
        assert(0 <= s[0] < bound);
        s.unique_seq_to_set();
        let range = vstd::set_lib::set_int_range(0, bound);
        vstd::set_lib::lemma_int_range(0, bound);
        assert(s.to_set().subset_of(range)) by {
            assert forall|x: int| s.to_set().contains(x) implies range.contains(x) by {
                assert(s.contains(x));
                let i = choose|i: int| 0 <= i < s.len() && s[i] == x;
                assert(0 <= s[i] < bound);
            }
        }
        vstd::set_lib::lemma_len_subset(s.to_set(), range);
    }
}

impl TrieModel {
    /// What holds while the nodes below `n0` are walked: `done` holds the
    /// nodes already visited, `todo` those still to visit.
    #[verifier::opaque]
    pub open spec fn walk_inv(self, n0: int, done: Seq<int>, todo: Seq<int>) -> bool {
        &&& done.no_duplicates()
        &&& todo.no_duplicates()
        &&& forall|x: int| #[trigger] done.contains(x) ==> !todo.contains(x)
        &&& forall|x: int|
            #![trigger done.contains(x)]
            done.contains(x) ==> self.is_node(x) && self.anc(n0, x) && (x != n0 ==> done.contains(
                self.parent[x],
            ))
        &&& forall|x: int|
            #![trigger todo.contains(x)]
            todo.contains(x) ==> self.is_node(x) && self.anc(n0, x) && (x != n0 ==> done.contains(
                self.parent[x],
            ))
        &&& done.contains(n0) || todo.contains(n0)
        &&& forall|p: int, k: u32|
            done.contains(p) && #[trigger] self.nodes[p].kids.contains_key(k) ==> done.contains(
                self.nodes[p].kids[k] as int,
            ) || todo.contains(self.nodes[p].kids[k] as int)
    }

    /// Visiting the last node of the work list and putting its children
    /// on the list keeps the walk in order.
    pub proof fn lemma_walk_step(
        self,
        n0: int,
        done: Seq<int>,
        todo: Seq<int>,
        entries: Seq<(u32, usize)>,
    )
        requires
            self.inv(),
            self.is_node(n0),
            self.walk_inv(n0, done, todo),
            todo.len() > 0,
            lists_map(entries, self.nodes[todo.last()].kids),
        ensures
            self.walk_inv(n0, done.push(todo.last()), todo.drop_last() + targets(entries)),
            !done.contains(todo.last()),
    {
        reveal(TrieModel::walk_inv);
        let top = todo.last();
        let rest = todo.drop_last();
        let kids = targets(entries);
        let done2 = done.push(top);
        let todo2 = rest + kids;
        assert(todo.contains(top));
        assert(todo =~= rest.push(top));
        assert(self.kids_ok(top));
        self.lemma_anc_label(n0, top);
        self.lemma_node_bounds(top);
        // what is known of each child
        assert forall|i: int| 0 <= i < kids.len() implies 0 < #[trigger] kids[i] < self.nodes.len()
            && self.parent[kids[i]] == top && self.key(kids[i]) == entries[i].0 && !done.contains(
            kids[i],
        ) && !todo.contains(kids[i]) && self.anc(n0, kids[i]) by {
            let c = kids[i];
            assert(self.nodes[top].kids.contains_key(entries[i].0));
            self.lemma_node_bounds(c);
            assert(self.node_ok(c));
            if done.contains(c) || todo.contains(c) {
                if c == n0 {
                } else {
                    assert(done.contains(self.parent[c]));
                }
            }
        }
        assert forall|i: int, j: int| 0 <= i < j < kids.len() implies kids[i] != kids[j] by {
            assert(self.key(kids[i]) == entries[i].0);
            assert(self.key(kids[j]) == entries[j].0);
        }
        assert(kids.no_duplicates());
        assert forall|i: int, j: int| 0 <= i < j < rest.len() implies rest[i] != rest[j] by {
            assert(todo[i] != todo[j]);
        }
        assert forall|x: int| rest.contains(x) implies todo.contains(x) && x != top by {
            let i = choose|i: int| 0 <= i < rest.len() && rest[i] == x;
            assert(todo[i] == x);
            assert(todo[i] != todo[todo.len() - 1]);
        }
        assert forall|i: int, j: int| 0 <= i < rest.len() && 0 <= j < kids.len() implies rest[i]
            != kids[j] by {
            assert(rest.contains(rest[i]));
        }
        lemma_no_dup_in_concat(rest, kids);
        assert forall|x: int| todo2.contains(x) implies rest.contains(x) || kids.contains(x) by {
            let i = choose|i: int| 0 <= i < todo2.len() && todo2[i] == x;
            if i < rest.len() {
                assert(rest[i] == x);
            } else {
                assert(kids[i - rest.len()] == x);
            }
        }
        assert forall|x: int| rest.contains(x) || kids.contains(x) implies todo2.contains(x) by {
            if rest.contains(x) {
                let i = choose|i: int| 0 <= i < rest.len() && rest[i] == x;
                assert(todo2[i] == x);
            } else {
                let i = choose|i: int| 0 <= i < kids.len() && kids[i] == x;
                assert(todo2[rest.len() + i] == x);
            }
        }
        assert forall|x: int| done2.contains(x) implies done.contains(x) || x == top by {
            let i = choose|i: int| 0 <= i < done2.len() && done2[i] == x;
            if i < done.len() {
                assert(done[i] == x);
            }
        }
        assert forall|x: int| done.contains(x) || x == top implies done2.contains(x) by {
            if done.contains(x) {
                let i = choose|i: int| 0 <= i < done.len() && done[i] == x;
                assert(done2[i] == x);
            } else {
                assert(done2[done.len() as int] == x);
            }
        }
        assert(done2.no_duplicates()) by {
            assert forall|i: int, j: int| 0 <= i < j < done2.len() implies done2[i] != done2[j] by {
                if j == done.len() {
                    assert(done.contains(done[i]));
                }
            }
        }
        assert forall|x: int| todo.contains(x) implies rest.contains(x) || x == top by {
            let i = choose|i: int| 0 <= i < todo.len() && todo[i] == x;
            if i < rest.len() {
                assert(rest[i] == x);
            }
        }
        assert forall|x: int| kids.contains(x) implies self.is_node(x) && self.anc(n0, x)
            && self.parent[x] == top && !done.contains(x) && !todo.contains(x) by {
            let i = choose|i: int| 0 <= i < kids.len() && kids[i] == x;
            assert(kids[i] == x);
        }
        assert forall|p: int, k: u32|
            done2.contains(p) && #[trigger] self.nodes[p].kids.contains_key(k) implies done2.contains(
            self.nodes[p].kids[k] as int,
        ) || todo2.contains(self.nodes[p].kids[k] as int) by {
            let c = self.nodes[p].kids[k] as int;
            if p == top {
                let i = choose|i: int| 0 <= i < entries.len() && (#[trigger] entries[i]).0 == k;
                assert(kids[i] == c);
            } else {
                assert(done.contains(p));
            }
        }
    }

    /// When nothing is left to visit, every node below `n0` was visited.
    pub proof fn lemma_walk_done(self, n0: int, done: Seq<int>, h: int)
        requires
            self.inv(),
            self.walk_inv(n0, done, Seq::empty()),
            self.is_node(h),
            self.anc(n0, h),
        ensures
            done.contains(h),
        decreases self.depth[h],
    {
        reveal(TrieModel::walk_inv);
        let todo = Seq::<int>::empty();
        if h != n0 {
            self.lemma_node_bounds(h);
            assert(self.node_ok(h));
            let p = self.parent[h];
            self.lemma_walk_done(n0, done, p);
            assert(self.nodes[p].kids.contains_key(self.key(h)));
        }
    }

    /// The nodes walked so far are no more than the nodes of the trie.
    pub proof fn lemma_walk_bound(self, n0: int, done: Seq<int>, todo: Seq<int>)
        requires
            self.walk_inv(n0, done, todo),
        ensures
            done.len() <= self.nodes.len(),
    {
        reveal(TrieModel::walk_inv);
        assert forall|i: int| 0 <= i < done.len() implies 0 <= #[trigger] done[i]
            < self.nodes.len() by {
            assert(done.contains(done[i]));
        }
        lemma_distinct_bounded(done, self.nodes.len() as int);
    }

    /// At the start of a walk only the node it starts from waits.
    pub proof fn lemma_walk_start(self, n0: int)
        requires
            self.inv(),
            self.is_node(n0),
        ensures
            self.walk_inv(n0, Seq::empty(), seq![n0]),
    {
        reveal(TrieModel::walk_inv);
        let todo = seq![n0];
        assert(todo[0] == n0);
        assert forall|x: int| todo.contains(x) implies x == n0 by {}
    }

    /// The node to visit next is a node of the trie.
    pub proof fn lemma_walk_top(self, n0: int, done: Seq<int>, todo: Seq<int>)
        requires
            self.walk_inv(n0, done, todo),
            todo.len() > 0,
        ensures
            self.is_node(todo.last()),
    {
        reveal(TrieModel::walk_inv);
        assert(todo.contains(todo[todo.len() - 1]));
    }

    /// The markers gathered are those of the nodes visited, each once.
    #[verifier::opaque]
    pub open spec fn gathered_leaves(self, done: Seq<int>, leaves: Seq<Leaf>) -> bool {
        &&& leaves.no_duplicates()
        &&& forall|leaf: Leaf|
            #![trigger leaves.contains(leaf)]
            #![trigger self.is_record(leaf)]
            leaves.contains(leaf) <==> self.is_record(leaf) && done.contains(self.home_of(leaf))
    }

    /// Visiting one more node adds its markers to those gathered.
    pub proof fn lemma_gather_leaves(self, done: Seq<int>, index: int, before: Seq<Leaf>)
        requires
            self.inv(),
            self.is_node(index),
            !done.contains(index),
            self.gathered_leaves(done, before),
        ensures
            self.gathered_leaves(done.push(index), before + self.nodes[index].leaves),
    {
        reveal(TrieModel::gathered_leaves);
        let own = self.nodes[index].leaves;
        let all = before + own;
        let done2 = done.push(index);
        assert(self.leaves_ok(index));
        assert forall|a: int, b: int|
            0 <= a < before.len() && 0 <= b < own.len() implies before[a] != own[b] by {
            assert(before.contains(before[a]));
            assert(self.home_of(own[b]) == index);
        }
        lemma_no_dup_in_concat(before, own);
        assert forall|leaf: Leaf|
            #![trigger all.contains(leaf)]
            #![trigger self.is_record(leaf)]
            all.contains(leaf) <==> self.is_record(leaf) && done2.contains(self.home_of(leaf)) by {
            if all.contains(leaf) {
                let i = choose|i: int| 0 <= i < all.len() && all[i] == leaf;
                if i < before.len() {
                    assert(before[i] == leaf);
                    assert(before.contains(leaf));
                    let k = choose|k: int| 0 <= k < done.len() && done[k] == self.home_of(leaf);
                    assert(done2[k] == self.home_of(leaf));
                } else {
                    assert(own[i - before.len()] == leaf);
                    assert(done2[done.len() as int] == index);
                }
            }
            if self.is_record(leaf) && done2.contains(self.home_of(leaf)) {
                let k = choose|k: int| 0 <= k < done2.len() && done2[k] == self.home_of(leaf);
                if k < done.len() {
                    assert(done[k] == self.home_of(leaf));
                    assert(before.contains(leaf));
                    let i = choose|i: int| 0 <= i < before.len() && before[i] == leaf;
                    assert(all[i] == leaf);
                } else {
                    assert(self.record_ok(leaf.text_index as int, leaf.index_in_str as int));
                    let i = choose|i: int| 0 <= i < own.len() && own[i] == leaf;
                    assert(all[before.len() + i] == leaf);
                }
            }
        }
    }

    /// When the walk is over, the markers gathered are those below the
    /// node the walk started from.
    pub proof fn lemma_gathered_all(self, n0: int, done: Seq<int>, leaves: Seq<Leaf>)
        requires
            self.inv(),
            self.is_node(n0),
            self.walk_inv(n0, done, Seq::empty()),
            self.gathered_leaves(done, leaves),
        ensures
            leaves.no_duplicates(),
            forall|leaf: Leaf| #[trigger]
                leaves.contains(leaf) <==> self.is_record(leaf) && self.anc(n0, self.home_of(leaf)),
    {
        reveal(TrieModel::gathered_leaves);
        assert forall|leaf: Leaf| #[trigger]
            leaves.contains(leaf) <==> self.is_record(leaf) && self.anc(
                n0,
                self.home_of(leaf),
            ) by {
            if self.is_record(leaf) {
                assert(self.record_ok(leaf.text_index as int, leaf.index_in_str as int));
                if self.anc(n0, self.home_of(leaf)) {
                    self.lemma_walk_done(n0, done, self.home_of(leaf));
                }
                if done.contains(self.home_of(leaf)) {
                    reveal(TrieModel::walk_inv);
                }
            }
        }
    }
}

impl SuffixTrie {
    /// All leaf markers on the node and below it, each once, ordered by
    /// document and position. Below the root these are the markers of
    /// all indexed suffixes: one for every position of every document.
    pub fn get_all_leaf_descendants(&self, node_index: usize) -> (leaves: Vec<Leaf>)
        requires
            self.wf(),
            node_index < self.model().nodes.len(),
        ensures
            leaves_strictly_ascending(leaves@),
            forall|leaf: Leaf|
                leaves@.contains(leaf) <==> self.model().is_record(leaf) && self.model().anc(
                    node_index as int,
                    self.model().home_of(leaf),
                ),
            node_index == 0 ==> forall|leaf: Leaf| leaves@.contains(leaf) <==> self.holds(leaf),
    {
        let ghost m = self.model();
        proof {
            self.lemma_wf();
        }
        let mut leaves: Vec<Leaf> = Vec::new();
        let mut to_process: Vec<usize> = Vec::new();
        to_process.push(node_index);
        let ghost mut done: Seq<int> = Seq::empty();
        proof {
            assert(as_ints(to_process@) =~= seq![node_index as int]);
            m.lemma_walk_start(node_index as int);
            reveal(TrieModel::gathered_leaves);
        }
        while to_process.len() > 0
            invariant
                self.built(),
                m == self.model(),
                node_index < m.nodes.len(),
                m.walk_inv(node_index as int, done, as_ints(to_process@)),
                m.gathered_leaves(done, leaves@),
            decreases m.nodes.len() - done.len(),
        {
            let ghost todo = as_ints(to_process@);
            let index: usize = to_process[to_process.len() - 1];
            to_process.pop();
            proof {
                assert(todo.last() == index);
                assert(as_ints(to_process@) =~= todo.drop_last());
                m.lemma_walk_top(node_index as int, done, todo);
            }
            let node = self.get_node(index);
            let ghost before = leaves@;
            let mut j: usize = 0;
            while j < node.leaf_children.len()
                invariant
                    j <= node.leaf_children.len(),
                    leaves@ == before + node.leaf_children@.take(j as int),
                decreases node.leaf_children.len() - j,
            {
                leaves.push(node.leaf_children[j]);
                proof {
                    assert(node.leaf_children@.take(j as int + 1) =~= node.leaf_children@.take(
                        j as int,
                    ).push(node.leaf_children@[j as int]));
                    assert(leaves@ =~= before + node.leaf_children@.take(j as int + 1));
                }
                j = j + 1;
            }
            let entries = node.child_entries();
            let ghost rest = to_process@;
            let mut c: usize = 0;
            while c < entries.len()
                invariant
                    c <= entries.len(),
                    to_process@ == rest + Seq::new(c as nat, |i: int| entries@[i].1),
                decreases entries.len() - c,
            {
                to_process.push(entries[c].1);
                proof {
                    assert(to_process@ =~= rest + Seq::new(
                        (c + 1) as nat,
                        |i: int| entries@[i].1,
                    ));
                }
                c = c + 1;
            }
            proof {
                let own = node.leaf_children@;
                assert(own.take(own.len() as int) =~= own);
                assert(own == m.nodes[index as int].leaves);
                m.lemma_walk_step(node_index as int, done, todo, entries@);
                assert(as_ints(to_process@) =~= todo.drop_last() + targets(entries@));
                m.lemma_walk_bound(node_index as int, done.push(index as int), as_ints(to_process@));
                m.lemma_gather_leaves(done, index as int, before);
                done = done.push(index as int);
            }
        }
        proof {
            assert(as_ints(to_process@) =~= Seq::<int>::empty());
            m.lemma_gathered_all(node_index as int, done, leaves@);
        }
        let sorted = sort_leaves(leaves);
        proof {
            assert forall|leaf: Leaf|
                sorted@.contains(leaf) <==> m.is_record(leaf) && m.anc(
                    node_index as int,
                    m.home_of(leaf),
                ) by {
                assert(sorted@.contains(leaf) <==> leaves@.contains(leaf));
            }
            if node_index == 0 {
                assert forall|leaf: Leaf| sorted@.contains(leaf) <==> self.holds(leaf) by {
                    self.lemma_holds(leaf);
                    if m.is_record(leaf) {
                        assert(m.record_ok(leaf.text_index as int, leaf.index_in_str as int));
                        m.lemma_root_anc(m.home_of(leaf));
                    }
                }
            }
        }
        sorted
    }
}

} // verus!
