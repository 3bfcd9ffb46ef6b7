//! What a query has to return, stated over the registered documents, and
//! the step from leaf markers to matches.

use crate::config::chars_match_spec;
use crate::index::lemma_line_starts_ascend;
use crate::lines::line_of;
use crate::record::{Leaf, Match};
use crate::trie::{Document, SuffixTrie};
use vstd::prelude::*;

verus! {

/// The pattern and the span have the same length, and each character of
/// the pattern matches the character of the span at the same place.
pub open spec fn agree(
    ignored: Set<char>,
    case_insensitive: bool,
    pattern: Seq<char>,
    span: Seq<char>,
) -> bool {
    pattern.len() == span.len() && forall|j: int|
        0 <= j < pattern.len() ==> chars_match_spec(
            ignored,
            case_insensitive,
            #[trigger] pattern[j],
            span[j],
        )
}

/// Agreement goes character by character.
pub proof fn lemma_agree_push(
    ignored: Set<char>,
    case_insensitive: bool,
    pattern: Seq<char>,
    span: Seq<char>,
    p: char,
    c: char,
)
    ensures
        agree(ignored, case_insensitive, pattern.push(p), span.push(c)) <==> agree(
            ignored,
            case_insensitive,
            pattern,
            span,
        ) && chars_match_spec(ignored, case_insensitive, p, c),
{
    let pp = pattern.push(p);
    let sp = span.push(c);
    if agree(ignored, case_insensitive, pp, sp) {
        assert(pp[pattern.len() as int] == p);
        assert(sp[pattern.len() as int] == c);
        assert forall|j: int| 0 <= j < pattern.len() implies chars_match_spec(
            ignored,
            case_insensitive,
            #[trigger] pattern[j],
            span[j],
        ) by {
            assert(pp[j] == pattern[j]);
            assert(sp[j] == span[j]);
        }
    }
    if agree(ignored, case_insensitive, pattern, span) && chars_match_spec(
        ignored,
        case_insensitive,
        p,
        c,
    ) {
        assert forall|j: int| 0 <= j < pp.len() implies chars_match_spec(
            ignored,
            case_insensitive,
            #[trigger] pp[j],
            sp[j],
        ) by {
            if j < pattern.len() {
                assert(pp[j] == pattern[j]);
                assert(sp[j] == span[j]);
            }
        }
    }
}

impl Document {
    /// The span of `len` characters at `pos` lies inside one sentence of
    /// the document.
    pub open spec fn holds_span(self, pos: int, len: int) -> bool {
        0 <= pos < self.text().len() && 0 <= len && pos + len <= self.suffix_end(pos)
    }

    /// The `len` characters of the document from `pos` on.
    pub open spec fn span(self, pos: int, len: int) -> Seq<char> {
        self.text().subrange(pos, pos + len)
    }
}

/// The match that reports the span of `length` characters at `pos` in
/// document `d`, with its lines.
pub open spec fn match_at(docs: Seq<Document>, d: usize, pos: usize, length: usize, errors: usize) -> Match {
    Match {
        text_index: d,
        index_in_str: pos,
        start_line: line_of(docs[d as int].line_starts(), pos as int) as usize,
        end_line: line_of(docs[d as int].line_starts(), pos + length) as usize,
        length,
        errors,
    }
}

/// `m` reports an exact occurrence of the pattern: a span inside one
/// sentence that agrees with the pattern character by character. A
/// pattern without characters occurs nowhere.
pub open spec fn is_exact_match(
    docs: Seq<Document>,
    pattern: Seq<char>,
    ignored: Set<char>,
    case_insensitive: bool,
    m: Match,
) -> bool {
    &&& pattern.len() > 0
    &&& m.text_index < docs.len()
    &&& docs[m.text_index as int].holds_span(m.index_in_str as int, pattern.len() as int)
    &&& agree(
        ignored,
        case_insensitive,
        pattern,
        docs[m.text_index as int].span(m.index_in_str as int, pattern.len() as int),
    )
    &&& m == match_at(docs, m.text_index, m.index_in_str, pattern.len() as usize, 0)
}

impl SuffixTrie {
    /// The leaf names an indexed suffix of a registered document.
    pub open spec fn holds(&self, leaf: Leaf) -> bool {
        leaf.text_index < self@.len() && leaf.index_in_str < self@[leaf.text_index as int].text().len()
    }

    /// In a well-formed index the suffixes indexed are those of the
    /// documents.
    pub(crate) proof fn lemma_holds(&self, leaf: Leaf)
        requires
            self.wf(),
        ensures
            self.holds(leaf) == self.model().is_record(leaf),
            self.holds(leaf) ==> self.model().suffix(
                leaf.text_index as int,
                leaf.index_in_str as int,
            ) == self@[leaf.text_index as int].text().subrange(
                leaf.index_in_str as int,
                self@[leaf.text_index as int].suffix_end(leaf.index_in_str as int),
            ),
            self.holds(leaf) ==> leaf.index_in_str < self@[leaf.text_index as int].suffix_end(
                leaf.index_in_str as int,
            ) <= self@[leaf.text_index as int].text().len() <= usize::MAX,
    {
        self.lemma_wf();
        self.lemma_view();
        let m = self.model();
        let d = leaf.text_index as int;
        let pos = leaf.index_in_str as int;
        if leaf.text_index < self@.len() {
            assert(self.doc_linked(d));
            assert(self.complete(d));
            if self.holds(leaf) {
                assert(m.record_ok(d, pos));
                let off = self.texts[d].offset as int;
                let text = self@[d].text();
                let e = self@[d].suffix_end(pos);
                crate::index::lemma_sentence_end_bounds(self@[d].sentences, pos);
                crate::index::lemma_start_of_rises(self@, d, self@.len() as int);
                assert(m.ends[d][pos] == e);
                assert(m.buf.subrange(off + pos, off + e) =~= text.subrange(pos, e)) by {
                    assert(m.buf.subrange(off, off + text.len()) == text);
                    assert forall|i: int| 0 <= i < e - pos implies #[trigger] m.buf.subrange(
                        off + pos,
                        off + e,
                    )[i] == text.subrange(pos, e)[i] by {
                        assert(m.buf.subrange(off, off + text.len())[pos + i] == m.buf[off + pos
                            + i]);
                    }
                }
            }
        }
    }

    /// The matches that report a span of `length` characters at each of
    /// the given leaves, in the order of the leaves.
    pub(crate) fn match_array_from_leaves(&self, leaves: Vec<Leaf>, length: usize, errors: usize) -> (matches:
        Vec<Match>)
        requires
            self.wf(),
            forall|i: int|
                0 <= i < leaves.len() ==> self.holds(#[trigger] leaves[i]) && leaves[i].index_in_str
                    + length <= usize::MAX,
        ensures
            matches.len() == leaves.len(),
            forall|i: int|
                0 <= i < leaves.len() ==> #[trigger] matches[i] == match_at(
                    self@,
                    leaves[i].text_index,
                    leaves[i].index_in_str,
                    length,
                    errors,
                ),
    {
        let mut matches: Vec<Match> = Vec::new();
        let mut i: usize = 0;
        while i < leaves.len()
            invariant
                self.wf(),
                i <= leaves.len(),
                matches.len() == i,
                forall|k: int|
                    0 <= k < leaves.len() ==> self.holds(#[trigger] leaves[k])
                        && leaves[k].index_in_str + length <= usize::MAX,
                forall|k: int|
                    0 <= k < i ==> #[trigger] matches[k] == match_at(
                        self@,
                        leaves[k].text_index,
                        leaves[k].index_in_str,
                        length,
                        errors,
                    ),
            decreases leaves.len() - i,
        {
            let leaf: Leaf = leaves[i];
            proof {
                self.lemma_wf();
                self.lemma_view();
                let d = leaf.text_index as int;
                assert(self.holds(leaf));
                assert(self.doc_linked(d));
                assert(self.complete(d));
                let text = self@[d].text();
                assert(text.take(text.len() as int) =~= text);
                lemma_line_starts_ascend(text);
                crate::lines::lemma_line_of_in_range(self@[d].line_starts(), leaf.index_in_str as int);
                crate::lines::lemma_line_of_in_range(
                    self@[d].line_starts(),
                    leaf.index_in_str + length,
                );
            }
            let text = &self.texts[leaf.text_index];
            let (start_line, end_line) = text.get_lines_of_substring(leaf.index_in_str, length);
            let match_obj = Match {
                text_index: leaf.text_index,
                index_in_str: leaf.index_in_str,
                start_line,
                end_line,
                length,
                errors,
            };
            matches.push(match_obj);
            i = i + 1;
        }
        matches
    }
}

} // verus!
