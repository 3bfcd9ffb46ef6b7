//! Result records: the leaf markers stored in the index and the matches
//! handed back by queries, each with its total order.

use std::cmp::Ordering;
use crate::order::{merge_sort, Ranked};
use vstd::prelude::*;
use vstd::seq_lib::*;

verus! {

/// One occurrence of a pattern in an indexed document.
///
/// Matches are ordered by `(errors, length, text_index, index_in_str)`:
/// fewer errors first, then shorter spans, then earlier documents, then
/// earlier positions. The same tuple decides `==`.
#[derive(Clone, Copy, Debug)]
pub struct Match {
    /// Index of the document, in registration order.
    pub text_index: usize,
    /// Offset of the first matched character inside the document.
    pub index_in_str: usize,
    /// Line holding the first matched character.
    pub start_line: usize,
    /// Line holding the character just past the match.
    pub end_line: usize,
    /// Number of text characters the match covers.
    pub length: usize,
    /// Number of edits between the pattern and the covered text.
    pub errors: usize,
}

/// Lexicographic "strictly less" on four-component keys.
pub open spec fn key_lt(a: (usize, usize, usize, usize), b: (usize, usize, usize, usize)) -> bool {
    a.0 < b.0 || (a.0 == b.0 && (a.1 < b.1 || (a.1 == b.1 && (a.2 < b.2 || (a.2 == b.2 && a.3
        < b.3)))))
}

impl Match {
    /// The tuple by which matches are ordered and compared.
    pub open spec fn key(self) -> (usize, usize, usize, usize) {
        (self.errors, self.length, self.text_index, self.index_in_str)
    }

    /// `self` sorts strictly before `other`.
    pub open spec fn precedes(self, other: Match) -> bool {
        key_lt(self.key(), other.key())
    }

    /// The tuple by which matches are ordered and compared.
    pub fn sort_key(&self) -> (k: (usize, usize, usize, usize))
        ensures
            k == self.key(),
    {
        (self.errors, self.length, self.text_index, self.index_in_str)
    }

    /// Executable form of [`Match::precedes`].
    pub fn sorts_before(&self, other: &Match) -> (b: bool)
        ensures
            b == self.precedes(*other),
    {
        if self.errors != other.errors {
            self.errors < other.errors
        } else if self.length != other.length {
            self.length < other.length
        } else if self.text_index != other.text_index {
            self.text_index < other.text_index
        } else {
            self.index_in_str < other.index_in_str
        }
    }
}

impl PartialEq for Match {
    fn eq(&self, other: &Self) -> (r: bool) {
        self.errors == other.errors && self.length == other.length && self.text_index
            == other.text_index && self.index_in_str == other.index_in_str
    }
}

impl vstd::std_specs::cmp::PartialEqSpecImpl for Match {
    open spec fn obeys_eq_spec() -> bool {
        true
    }

    open spec fn eq_spec(&self, other: &Self) -> bool {
        self.key() == other.key()
    }
}

impl PartialOrd for Match {
    fn partial_cmp(&self, other: &Self) -> (r: Option<Ordering>) {
        if self.sorts_before(other) {
            Some(Ordering::Less)
        } else if other.sorts_before(self) {
            Some(Ordering::Greater)
        } else {
            Some(Ordering::Equal)
        }
    }
}

impl vstd::std_specs::cmp::PartialOrdSpecImpl for Match {
    open spec fn obeys_partial_cmp_spec() -> bool {
        true
    }

    open spec fn partial_cmp_spec(&self, other: &Self) -> Option<Ordering> {
        if self.precedes(*other) {
            Some(Ordering::Less)
        } else if other.precedes(*self) {
            Some(Ordering::Greater)
        } else {
            Some(Ordering::Equal)
        }
    }
}

/// A match with fewer errors sorts before one with more, whatever their
/// positions and lengths.
pub proof fn lemma_fewer_errors_sort_first(a: Match, b: Match)
    requires
        a.errors < b.errors,
    ensures
        a.precedes(b),
        !b.precedes(a),
{
}

/// The order on matches is a strict total order on sort keys.
pub proof fn lemma_match_order_is_total(a: Match, b: Match, c: Match)
    ensures
        !a.precedes(a),
        a.precedes(b) && b.precedes(c) ==> a.precedes(c),
        a.precedes(b) || b.precedes(a) || a.key() == b.key(),
        !(a.precedes(b) && b.precedes(a)),
{
}

/// No element sorts before an earlier one.
pub open spec fn matches_ascending(s: Seq<Match>) -> bool {
    forall|i: int, j: int| 0 <= i < j < s.len() ==> !(#[trigger] s[j]).precedes(#[trigger] s[i])
}

/// Every element sorts strictly before all later ones.
pub open spec fn matches_strictly_ascending(s: Seq<Match>) -> bool {
    forall|i: int, j: int| 0 <= i < j < s.len() ==> (#[trigger] s[i]).precedes(#[trigger] s[j])
}

/// Two strictly ascending sequences that hold the same matches are the
/// same sequence.
pub proof fn lemma_strictly_ascending_unique(a: Seq<Match>, b: Seq<Match>)
    requires
        matches_strictly_ascending(a),
        matches_strictly_ascending(b),
        forall|m: Match| a.contains(m) <==> b.contains(m),
    ensures
        a == b,
    decreases a.len(),
{
    if a.len() == 0 {
        if b.len() > 0 {
            assert(b.contains(b[0]));
            assert(a.contains(b[0]));
        }
        assert(a =~= b);
    } else {
        let x = a[0];
        assert(a.contains(x));
        assert(b.contains(x));
        let jb = choose|j: int| 0 <= j < b.len() && b[j] == x;
        let y = b[0];
        assert(b.contains(y));
        assert(a.contains(y));
        let ja = choose|j: int| 0 <= j < a.len() && a[j] == y;
        // x is the least of a and y the least of b, so they coincide.
        if jb > 0 {
            assert(b[0].precedes(b[jb]));
            if ja > 0 {
                assert(a[0].precedes(a[ja]));
            }
        }
        assert(x == y);
        let a1 = a.subrange(1, a.len() as int);
        let b1 = b.subrange(1, b.len() as int);
        assert forall|m: Match| a1.contains(m) <==> b1.contains(m) by {
            if a1.contains(m) {
                let i = choose|i: int| 0 <= i < a1.len() && a1[i] == m;
                assert(a[i + 1] == m);
                assert(a[0].precedes(a[i + 1]));
                assert(a.contains(m));
                assert(b.contains(m));
                let j = choose|j: int| 0 <= j < b.len() && b[j] == m;
                assert(j != 0);
                assert(b1[j - 1] == m);
            }
            if b1.contains(m) {
                let i = choose|i: int| 0 <= i < b1.len() && b1[i] == m;
                assert(b[i + 1] == m);
                assert(b[0].precedes(b[i + 1]));
                assert(b.contains(m));
                assert(a.contains(m));
                let j = choose|j: int| 0 <= j < a.len() && a[j] == m;
                assert(j != 0);
                assert(a1[j - 1] == m);
            }
        }
        assert forall|i: int, j: int| 0 <= i < j < a1.len() implies (#[trigger] a1[i]).precedes(
            #[trigger] a1[j],
        ) by {
            assert(a[i + 1].precedes(a[j + 1]));
        }
        assert forall|i: int, j: int| 0 <= i < j < b1.len() implies (#[trigger] b1[i]).precedes(
            #[trigger] b1[j],
        ) by {
            assert(b[i + 1].precedes(b[j + 1]));
        }
        lemma_strictly_ascending_unique(a1, b1);
        assert(a =~= seq![x] + a1);
        assert(b =~= seq![y] + b1);
    }
}

/// Matches with pairwise different keys, put into ascending order, are
/// strictly ascending.
pub proof fn lemma_sorted_distinct_is_strict(v: Seq<Match>, r: Seq<Match>)
    requires
        forall|s: int, t: int|
            0 <= s < t < v.len() ==> (#[trigger] v[s]).key() != (#[trigger] v[t]).key(),
        matches_ascending(r),
        r.to_multiset() == v.to_multiset(),
    ensures
        matches_strictly_ascending(r),
{
    assert(v.no_duplicates());
    v.lemma_multiset_has_no_duplicates();
    r.lemma_multiset_has_no_duplicates_conv();
    assert forall|i: int, j: int| 0 <= i < j < r.len() implies (#[trigger] r[i]).precedes(
        #[trigger] r[j],
    ) by {
        to_multiset_contains(r, r[i]);
        to_multiset_contains(v, r[i]);
        to_multiset_contains(r, r[j]);
        to_multiset_contains(v, r[j]);
        assert(r.contains(r[i]));
        assert(r.contains(r[j]));
        let a = choose|a: int| 0 <= a < v.len() && v[a] == r[i];
        let b = choose|b: int| 0 <= b < v.len() && v[b] == r[j];
        assert(r[i] != r[j]);
        if a < b {
            assert(v[a].key() != v[b].key());
        } else {
            assert(v[b].key() != v[a].key());
        }
        assert(!r[j].precedes(r[i]));
    }
}

/// Sorts matches into ascending order.
pub fn sort_matches(v: Vec<Match>) -> (r: Vec<Match>)
    ensures
        matches_ascending(r@),
        r@.to_multiset() == v@.to_multiset(),
        r.len() == v.len(),
{
    merge_sort(&v)
}

impl Ranked for Match {
    open spec fn before(self, other: Match) -> bool {
        self.precedes(other)
    }

    fn is_before(&self, other: &Match) -> (b: bool) {
        self.sorts_before(other)
    }

    proof fn lemma_order(a: Match, b: Match, c: Match) {
    }
}

/// A leaf marker: the suffix of document `text_index` that starts at
/// `index_in_str` ends at the node holding the marker.
#[derive(Clone, Copy, Debug, PartialEq, Eq, Structural)]
pub struct Leaf {
    pub index_in_str: usize,
    pub text_index: usize,
}

impl Leaf {
    /// The marker of the suffix of document `text_index` that starts at
    /// `index_in_str`.
    pub fn new(index_in_str: usize, text_index: usize) -> (leaf: Leaf)
        ensures
            leaf.index_in_str == index_in_str,
            leaf.text_index == text_index,
    {
        Leaf { index_in_str, text_index }
    }

    /// Leaves are ordered by document, then by position.
    pub open spec fn precedes(self, other: Leaf) -> bool {
        self.text_index < other.text_index || (self.text_index == other.text_index
            && self.index_in_str < other.index_in_str)
    }

    /// Executable form of [`Leaf::precedes`].
    pub fn sorts_before(&self, other: &Leaf) -> (b: bool)
        ensures
            b == self.precedes(*other),
    {
        self.text_index < other.text_index || (self.text_index == other.text_index
            && self.index_in_str < other.index_in_str)
    }
}

/// Every leaf sorts strictly before all later ones.
pub open spec fn leaves_strictly_ascending(s: Seq<Leaf>) -> bool {
    forall|i: int, j: int| 0 <= i < j < s.len() ==> (#[trigger] s[i]).precedes(#[trigger] s[j])
}

impl Ranked for Leaf {
    open spec fn before(self, other: Leaf) -> bool {
        self.precedes(other)
    }

    fn is_before(&self, other: &Leaf) -> (b: bool) {
        self.sorts_before(other)
    }

    proof fn lemma_order(a: Leaf, b: Leaf, c: Leaf) {
    }
}

/// No leaf sorts before an earlier one.
pub open spec fn leaves_ascending(s: Seq<Leaf>) -> bool {
    forall|i: int, j: int| 0 <= i < j < s.len() ==> !(#[trigger] s[j]).precedes(#[trigger] s[i])
}

/// Sorts leaves by document, then by position. A list without repeated
/// leaves comes out strictly ascending.
pub fn sort_leaves(v: Vec<Leaf>) -> (r: Vec<Leaf>)
    ensures
        leaves_ascending(r@),
        v@.no_duplicates() ==> leaves_strictly_ascending(r@),
        r@.to_multiset() == v@.to_multiset(),
        r.len() == v.len(),
        forall|l: Leaf| r@.contains(l) <==> v@.contains(l),
{
    let r = merge_sort(&v);
    proof {
        if v@.no_duplicates() {
            v@.lemma_multiset_has_no_duplicates();
            r@.lemma_multiset_has_no_duplicates_conv();
            assert forall|i: int, j: int| 0 <= i < j < r@.len() implies (#[trigger] r@[i]).precedes(
                #[trigger] r@[j],
            ) by {
                assert(!r@[j].before(r@[i]));
                assert(r@[i] != r@[j]);
            }
        }
        assert forall|i: int, j: int| 0 <= i < j < r@.len() implies !(#[trigger] r@[j]).precedes(
            #[trigger] r@[i],
        ) by {
            assert(!r@[j].before(r@[i]));
        }
        assert forall|l: Leaf| r@.contains(l) <==> v@.contains(l) by {
            to_multiset_contains(r@, l);
            to_multiset_contains(v@, l);
        }
    }
    r
}

} // verus!
