//! Laws that relate the queries to each other and to the documents.

use crate::context::describes;
use crate::distance::lemma_match_cost_zero;
use crate::index::{lemma_line_starts_ascend, lemma_sentence_end_bounds};
use crate::lines::lemma_line_of_in_range;
use crate::nodes::{goes_on, is_fork, is_indexed, is_suffix, needs_node, node_texts, suffix_at};
use crate::hits::is_exact_match;
use crate::record::{lemma_strictly_ascending_unique, matches_strictly_ascending, Leaf, Match};
use crate::search::is_fuzzy_match;
use crate::trie::Document;
use vstd::prelude::*;

verus! {

/// A match within zero errors is an exact match, and an exact match is a
/// match within zero errors.
pub proof fn lemma_zero_errors_is_exact(
    docs: Seq<Document>,
    pattern: Seq<char>,
    ignored: Set<char>,
    case_insensitive: bool,
    m: Match,
)
    requires
        pattern.len() <= usize::MAX,
    ensures
        is_fuzzy_match(docs, pattern, ignored, case_insensitive, 0, m) <==> is_exact_match(
            docs,
            pattern,
            ignored,
            case_insensitive,
            m,
        ),
{
    if m.text_index < docs.len() {
        let doc = docs[m.text_index as int];
        if 0 <= m.index_in_str < doc.text().len() {
            crate::index::lemma_sentence_end_bounds(doc.sentences, m.index_in_str as int);
        }
        lemma_match_cost_zero(
            ignored,
            case_insensitive,
            pattern,
            doc.span(m.index_in_str as int, m.length as int),
        );
        lemma_match_cost_zero(
            ignored,
            case_insensitive,
            pattern,
            doc.span(m.index_in_str as int, pattern.len() as int),
        );
    }
}

/// Searching within zero errors finds what the exact search finds: where
/// one result holds the matches within zero errors and the other the
/// exact matches, both in strictly ascending order, the two results are
/// the same.
pub proof fn lemma_zero_errors_same_result(
    docs: Seq<Document>,
    pattern: Seq<char>,
    ignored: Set<char>,
    case_insensitive: bool,
    within_zero: Seq<Match>,
    exact: Seq<Match>,
)
    requires
        pattern.len() <= usize::MAX,
        matches_strictly_ascending(within_zero),
        matches_strictly_ascending(exact),
        forall|m: Match|
            within_zero.contains(m) <==> is_fuzzy_match(
                docs,
                pattern,
                ignored,
                case_insensitive,
                0,
                m,
            ),
        forall|m: Match|
            exact.contains(m) <==> is_exact_match(docs, pattern, ignored, case_insensitive, m),
    ensures
        within_zero == exact,
{
    assert forall|m: Match| within_zero.contains(m) <==> exact.contains(m) by {
        lemma_zero_errors_is_exact(docs, pattern, ignored, case_insensitive, m);
    }
    lemma_strictly_ascending_unique(within_zero, exact);
}

/// What a search reports can be shown with its surroundings: a match,
/// exact or within a number of errors, names a span of its document
/// together with the lines on which the span starts and ends.
pub proof fn lemma_match_is_described(
    docs: Seq<Document>,
    pattern: Seq<char>,
    ignored: Set<char>,
    case_insensitive: bool,
    max_errors: usize,
    m: Match,
)
    requires
        m.text_index < docs.len() ==> docs[m.text_index as int].text().len() <= usize::MAX,
        is_exact_match(docs, pattern, ignored, case_insensitive, m) || is_fuzzy_match(
            docs,
            pattern,
            ignored,
            case_insensitive,
            max_errors,
            m,
        ),
    ensures
        describes(docs, m),
{
    let doc = docs[m.text_index as int];
    lemma_sentence_end_bounds(doc.sentences, m.index_in_str as int);
    lemma_line_starts_ascend(doc.text());
    lemma_line_of_in_range(doc.line_starts(), m.index_in_str as int);
    lemma_line_of_in_range(doc.line_starts(), m.index_in_str + m.length);
}

/// Registering one more document leaves the matches in the documents
/// registered before as they are.
pub proof fn lemma_earlier_matches_stay(
    docs: Seq<Document>,
    added: Document,
    pattern: Seq<char>,
    ignored: Set<char>,
    case_insensitive: bool,
    max_errors: usize,
    m: Match,
)
    requires
        m.text_index < docs.len(),
    ensures
        is_exact_match(docs.push(added), pattern, ignored, case_insensitive, m) <==> is_exact_match(
            docs,
            pattern,
            ignored,
            case_insensitive,
            m,
        ),
        is_fuzzy_match(docs.push(added), pattern, ignored, case_insensitive, max_errors, m)
            <==> is_fuzzy_match(docs, pattern, ignored, case_insensitive, max_errors, m),
{
    assert(docs.push(added)[m.text_index as int] == docs[m.text_index as int]);
}

/// The matches in a document depend on that document alone: where two
/// lists of documents hold the same document at the place a match names,
/// the match is a match for both or for neither.
pub proof fn lemma_match_depends_on_its_document(
    first: Seq<Document>,
    second: Seq<Document>,
    pattern: Seq<char>,
    ignored: Set<char>,
    case_insensitive: bool,
    max_errors: usize,
    m: Match,
)
    requires
        m.text_index < first.len(),
        m.text_index < second.len(),
        first[m.text_index as int] == second[m.text_index as int],
    ensures
        is_exact_match(first, pattern, ignored, case_insensitive, m) <==> is_exact_match(
            second,
            pattern,
            ignored,
            case_insensitive,
            m,
        ),
        is_fuzzy_match(first, pattern, ignored, case_insensitive, max_errors, m) <==> is_fuzzy_match(
            second,
            pattern,
            ignored,
            case_insensitive,
            max_errors,
            m,
        ),
{
}

/// The answer to an exact search is settled by the documents: two
/// indexes that hold the same documents give the same result.
pub proof fn lemma_exact_result_follows_documents(
    docs: Seq<Document>,
    pattern: Seq<char>,
    ignored: Set<char>,
    case_insensitive: bool,
    first: Seq<Match>,
    second: Seq<Match>,
)
    requires
        matches_strictly_ascending(first),
        matches_strictly_ascending(second),
        forall|m: Match|
            first.contains(m) <==> is_exact_match(docs, pattern, ignored, case_insensitive, m),
        forall|m: Match|
            second.contains(m) <==> is_exact_match(docs, pattern, ignored, case_insensitive, m),
    ensures
        first == second,
{
    lemma_strictly_ascending_unique(first, second);
}

/// The answer to a search within a number of errors is settled by the
/// documents: two indexes that hold the same documents give the same
/// result.
pub proof fn lemma_fuzzy_result_follows_documents(
    docs: Seq<Document>,
    pattern: Seq<char>,
    ignored: Set<char>,
    case_insensitive: bool,
    max_errors: usize,
    first: Seq<Match>,
    second: Seq<Match>,
)
    requires
        matches_strictly_ascending(first),
        matches_strictly_ascending(second),
        forall|m: Match|
            first.contains(m) <==> is_fuzzy_match(
                docs,
                pattern,
                ignored,
                case_insensitive,
                max_errors,
                m,
            ),
        forall|m: Match|
            second.contains(m) <==> is_fuzzy_match(
                docs,
                pattern,
                ignored,
                case_insensitive,
                max_errors,
                m,
            ),
    ensures
        first == second,
{
    lemma_strictly_ascending_unique(first, second);
}

/// Among documents that have the same indexed suffixes, a text that
/// needs a node in the one needs a node in the other.
pub proof fn lemma_needs_node_by_suffixes(a: Seq<Document>, b: Seq<Document>, t: Seq<char>)
    requires
        forall|s: Seq<char>| is_suffix(a, s) ==> is_suffix(b, s),
        needs_node(a, t),
    ensures
        needs_node(b, t),
{
    if !is_suffix(a, t) {
        let (x, y) = choose|x: Leaf, y: Leaf|
            #[trigger] goes_on(a, t, x) && #[trigger] goes_on(a, t, y) && suffix_at(a, x)[t.len() as int]
                != suffix_at(a, y)[t.len() as int];
        assert(is_suffix(a, suffix_at(a, x)));
        assert(is_suffix(a, suffix_at(a, y)));
        let x2 = choose|leaf: Leaf| is_indexed(b, leaf) && #[trigger] suffix_at(b, leaf) == suffix_at(a, x);
        let y2 = choose|leaf: Leaf| is_indexed(b, leaf) && #[trigger] suffix_at(b, leaf) == suffix_at(a, y);
        assert(goes_on(b, t, x2));
        assert(goes_on(b, t, y2));
        assert(is_fork(b, t));
    }
}

/// The nodes of the trie depend on the indexed suffixes alone: documents
/// with the same indexed suffixes give the same nodes.
pub proof fn lemma_nodes_follow_suffixes(a: Seq<Document>, b: Seq<Document>)
    requires
        forall|s: Seq<char>| is_suffix(a, s) <==> is_suffix(b, s),
    ensures
        node_texts(a) == node_texts(b),
{
    assert forall|t: Seq<char>| node_texts(a).contains(t) <==> node_texts(b).contains(t) by {
        if needs_node(a, t) {
            lemma_needs_node_by_suffixes(a, b, t);
        }
        if needs_node(b, t) {
            lemma_needs_node_by_suffixes(b, a, t);
        }
    }
    assert(node_texts(a) =~= node_texts(b));
}

/// A document with the sentences of a document registered before adds no
/// node to the trie.
pub proof fn lemma_known_text_adds_no_node(docs: Seq<Document>, k: int, doc: Document)
    requires
        0 <= k < docs.len(),
        doc.sentences == docs[k].sentences,
    ensures
        node_texts(docs.push(doc)) == node_texts(docs),
{
    let more = docs.push(doc);
    assert forall|s: Seq<char>| is_suffix(more, s) <==> is_suffix(docs, s) by {
        if is_suffix(more, s) {
            let leaf = choose|leaf: Leaf| is_indexed(more, leaf) && #[trigger] suffix_at(more, leaf) == s;
            if leaf.text_index < docs.len() {
                assert(is_indexed(docs, leaf) && suffix_at(docs, leaf) == s);
            } else {
                let twin = Leaf { text_index: k as usize, index_in_str: leaf.index_in_str };
                assert(is_indexed(docs, twin) && suffix_at(docs, twin) == s);
            }
        }
        if is_suffix(docs, s) {
            let leaf = choose|leaf: Leaf| is_indexed(docs, leaf) && #[trigger] suffix_at(docs, leaf) == s;
            assert(is_indexed(more, leaf) && suffix_at(more, leaf) == s);
        }
    }
    lemma_nodes_follow_suffixes(more, docs);
}

} // verus!
