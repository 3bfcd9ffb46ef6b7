//! The text of a match and of the lines around it.

use crate::index::{lemma_line_starts_ascend, lemma_start_of_rises};
use crate::lines::{lemma_line_of_brackets, lemma_line_of_in_range, line_of};
use crate::normalize::string_of;
use crate::record::Match;
use crate::trie::{Document, SuffixTrie};
use vstd::prelude::*;

verus! {

/// Where the text shown before a match starts: at the start of the line
/// `lines_before` lines above `line`, or at the start of the document
/// where there are fewer lines above.
pub open spec fn context_start(starts: Seq<usize>, line: int, lines_before: int) -> int {
    if lines_before > line {
        0
    } else {
        starts[line - lines_before] as int
    }
}

/// Where the text shown after a match ends: at the start of the line
/// that follows the line `lines_after` lines below `line`, which is the
/// end of that line, its line break included. Where that line is the
/// last of the document, or lies past the end, it is the end of the
/// document.
pub open spec fn context_end(starts: Seq<usize>, line: int, lines_after: int, length: int) -> int {
    if line + lines_after + 1 >= starts.len() {
        length
    } else {
        starts[line + lines_after + 1] as int
    }
}

/// The match names a span of a registered document and the lines on
/// which the span starts and ends.
pub open spec fn describes(docs: Seq<Document>, m: Match) -> bool {
    &&& m.text_index < docs.len()
    &&& m.index_in_str + m.length <= docs[m.text_index as int].text().len()
    &&& m.start_line == line_of(docs[m.text_index as int].line_starts(), m.index_in_str as int)
    &&& m.end_line == line_of(
        docs[m.text_index as int].line_starts(),
        m.index_in_str + m.length,
    )
}

impl SuffixTrie {
    /// The stored data of a document, in terms of the document.
    pub(crate) proof fn lemma_text_stored(&self, d: int)
        requires
            self.wf(),
            0 <= d < self@.len(),
        ensures
            self.texts[d].last_index == self@[d].text().len(),
            self.texts[d].line_start_indices@ == self@[d].line_starts(),
            self.texts[d].offset + self@[d].text().len() <= self.str_storage.len(),
            self.str_storage@.subrange(
                self.texts[d].offset as int,
                self.texts[d].offset + self@[d].text().len(),
            ) == self@[d].text(),
            self.texts.len() == self@.len(),
    {
        self.lemma_wf();
        self.lemma_view();
        assert(self.doc_linked(d));
        assert(self.complete(d));
        let text = self@[d].text();
        assert(text.take(text.len() as int) =~= text);
        lemma_start_of_rises(self@, d, self@.len() as int);
    }

    /// The characters `index_in_str .. index_in_str + length` of a
    /// document.
    pub(crate) fn owned_from_index(&self, text_index: usize, index_in_str: usize, length: usize) -> (s:
        String)
        requires
            self.wf(),
            text_index < self@.len(),
            index_in_str + length <= self@[text_index as int].text().len(),
        ensures
            s@ == self@[text_index as int].text().subrange(
                index_in_str as int,
                index_in_str + length,
            ),
    {
        proof {
            self.lemma_text_stored(text_index as int);
        }
        let start: usize = index_in_str + self.texts[text_index].offset;
        let end: usize = start + length;
        let s = string_of(&self.str_storage, start, end);
        proof {
            let off = self.texts[text_index as int].offset as int;
            let text = self@[text_index as int].text();
            assert(self.str_storage@.subrange(start as int, end as int) =~= text.subrange(
                index_in_str as int,
                index_in_str + length,
            )) by {
                assert forall|i: int| 0 <= i < length implies #[trigger] self.str_storage@.subrange(
                    start as int,
                    end as int,
                )[i] == text[index_in_str + i] by {
                    assert(self.str_storage@.subrange(off, off + text.len())[index_in_str + i]
                        == self.str_storage@[off + index_in_str + i]);
                }
            }
        }
        s
    }

    /// The text from `start_char_index` to the end of the context that
    /// `lines_after` lines below `line_index` give.
    pub(crate) fn owned_lines_after(
        &self,
        text_index: usize,
        line_index: usize,
        lines_after: usize,
        start_char_index: usize,
    ) -> (s: String)
        requires
            self.wf(),
            text_index < self@.len(),
            start_char_index <= self@[text_index as int].text().len(),
            line_index == line_of(self@[text_index as int].line_starts(), start_char_index as int),
        ensures
            s@ == self@[text_index as int].text().subrange(
                start_char_index as int,
                context_end(
                    self@[text_index as int].line_starts(),
                    line_index as int,
                    lines_after as int,
                    self@[text_index as int].text().len() as int,
                ),
            ),
            start_char_index <= context_end(
                self@[text_index as int].line_starts(),
                line_index as int,
                lines_after as int,
                self@[text_index as int].text().len() as int,
            ) <= self@[text_index as int].text().len(),
    {
        proof {
            self.lemma_text_stored(text_index as int);
            let text = self@[text_index as int].text();
            lemma_line_starts_ascend(text);
            lemma_line_of_brackets(self@[text_index as int].line_starts(), start_char_index as int);
            lemma_line_of_in_range(self@[text_index as int].line_starts(), start_char_index as int);
        }
        let text = &self.texts[text_index];
        let count: usize = text.line_start_indices.len();
        let end_char_index: usize = if lines_after >= count || line_index >= count - lines_after
            || count - lines_after - line_index <= 1 {
            text.last_index
        } else {
            text.line_start_indices[line_index + lines_after + 1]
        };
        let length: usize = end_char_index - start_char_index;
        self.owned_from_index(text_index, start_char_index, length)
    }

    /// The text from the start of the context that `lines_before` lines
    /// above `line_index` give to `end_char_index`.
    pub(crate) fn owned_lines_before(
        &self,
        text_index: usize,
        line_index: usize,
        lines_before: usize,
        end_char_index: usize,
    ) -> (s: String)
        requires
            self.wf(),
            text_index < self@.len(),
            end_char_index <= self@[text_index as int].text().len(),
            line_index == line_of(self@[text_index as int].line_starts(), end_char_index as int),
        ensures
            s@ == self@[text_index as int].text().subrange(
                context_start(
                    self@[text_index as int].line_starts(),
                    line_index as int,
                    lines_before as int,
                ),
                end_char_index as int,
            ),
            0 <= context_start(
                self@[text_index as int].line_starts(),
                line_index as int,
                lines_before as int,
            ) <= end_char_index,
    {
        proof {
            self.lemma_text_stored(text_index as int);
            let text = self@[text_index as int].text();
            lemma_line_starts_ascend(text);
            lemma_line_of_brackets(self@[text_index as int].line_starts(), end_char_index as int);
            lemma_line_of_in_range(self@[text_index as int].line_starts(), end_char_index as int);
        }
        let text = &self.texts[text_index];
        let start_char_index: usize = if lines_before > line_index {
            0
        } else {
            let start_line: usize = line_index - lines_before;
            proof {
                let starts = self@[text_index as int].line_starts();
                if start_line < line_index {
                    assert(starts[start_line as int] < starts[line_index as int]);
                }
            }
            text.line_start_indices[start_line]
        };
        let length: usize = end_char_index - start_char_index;
        self.owned_from_index(text_index, start_char_index, length)
    }

    /// Whether the match names a span of a registered document together
    /// with the lines on which the span starts and ends.
    pub fn is_match_of(&self, match_obj: &Match) -> (valid: bool)
        requires
            self.wf(),
        ensures
            valid == describes(self@, *match_obj),
    {
        proof {
            self.lemma_wf();
            self.lemma_view();
        }
        if match_obj.text_index >= self.texts.len() {
            return false;
        }
        proof {
            self.lemma_text_stored(match_obj.text_index as int);
            lemma_line_starts_ascend(self@[match_obj.text_index as int].text());
        }
        let text = &self.texts[match_obj.text_index];
        if match_obj.length > text.last_index || match_obj.index_in_str > text.last_index
            - match_obj.length {
            return false;
        }
        let (start_line, end_line) = text.get_lines_of_substring(
            match_obj.index_in_str,
            match_obj.length,
        );
        start_line == match_obj.start_line && end_line == match_obj.end_line
    }

    /// The text before a match, the matched text and the text after it.
    /// The text before starts `context_lines` lines above the line on
    /// which the match starts; the text after ends with the line
    /// `context_lines` lines below the line on which the match ends.
    pub fn get_strings_of_match(&self, match_obj: &Match, context_lines: usize) -> (strings: (
        String,
        String,
        String,
    ))
        requires
            self.wf(),
            describes(self@, *match_obj),
        ensures
            strings.0@ == self@[match_obj.text_index as int].text().subrange(
                context_start(
                    self@[match_obj.text_index as int].line_starts(),
                    match_obj.start_line as int,
                    context_lines as int,
                ),
                match_obj.index_in_str as int,
            ),
            strings.1@ == self@[match_obj.text_index as int].text().subrange(
                match_obj.index_in_str as int,
                match_obj.index_in_str + match_obj.length,
            ),
            strings.2@ == self@[match_obj.text_index as int].text().subrange(
                match_obj.index_in_str + match_obj.length,
                context_end(
                    self@[match_obj.text_index as int].line_starts(),
                    match_obj.end_line as int,
                    context_lines as int,
                    self@[match_obj.text_index as int].text().len() as int,
                ),
            ),
    {
        proof {
            self.lemma_text_stored(match_obj.text_index as int);
        }
        let matching = self.owned_from_index(
            match_obj.text_index,
            match_obj.index_in_str,
            match_obj.length,
        );
        let before = self.owned_lines_before(
            match_obj.text_index,
            match_obj.start_line,
            context_lines,
            match_obj.index_in_str,
        );
        let after = self.owned_lines_after(
            match_obj.text_index,
            match_obj.end_line,
            context_lines,
            match_obj.index_in_str + match_obj.length,
        );
        (before, matching, after)
    }
}

} // verus!
