//! Per-document metadata and the mapping from character offsets to
//! line numbers.

use vstd::prelude::*;
use vstd::string::*;

verus! {

/// The line holding offset `offset`: the greatest index whose line start
/// is at or before `offset`, and line 0 where there is none.
pub open spec fn line_of(starts: Seq<usize>, offset: int) -> int
    decreases starts.len(),
{
    if starts.len() == 0 {
        0
    } else if starts.last() <= offset {
        starts.len() - 1
    } else {
        line_of(starts.drop_last(), offset)
    }
}

/// Line starts never decrease.
pub open spec fn ascending(starts: Seq<usize>) -> bool {
    forall|i: int, j: int| 0 <= i <= j < starts.len() ==> starts[i] <= starts[j]
}

/// The offsets at which the lines of `text` start: offset 0, and the
/// offset after every line break.
pub open spec fn line_starts_of(text: Seq<char>) -> Seq<usize>
    decreases text.len(),
{
    if text.len() == 0 {
        seq![0usize]
    } else if text.last() == '\n' {
        line_starts_of(text.drop_last()).push(text.len() as usize)
    } else {
        line_starts_of(text.drop_last())
    }
}

/// With ascending line starts, `line_of` is the one line whose start is
/// at or before the offset while every later line starts after it.
pub proof fn lemma_line_of_is(starts: Seq<usize>, offset: int, line: int)
    requires
        ascending(starts),
        0 <= line < starts.len(),
        starts[line] <= offset,
        forall|j: int| line < j < starts.len() ==> starts[j] > offset,
    ensures
        line_of(starts, offset) == line,
    decreases starts.len(),
{
    if line < starts.len() - 1 {
        let shorter = starts.drop_last();
        assert(starts.last() == starts[starts.len() - 1]);
        assert forall|i: int, j: int| 0 <= i <= j < shorter.len() implies shorter[i]
            <= shorter[j] by {
            assert(starts[i] <= starts[j]);
        }
        lemma_line_of_is(shorter, offset, line);
    }
}

/// An offset before every line start is put on line 0.
pub proof fn lemma_line_of_before_all(starts: Seq<usize>, offset: int)
    requires
        forall|j: int| 0 <= j < starts.len() ==> starts[j] > offset,
    ensures
        line_of(starts, offset) == 0,
    decreases starts.len(),
{
    if starts.len() > 0 {
        assert(starts.last() == starts[starts.len() - 1]);
        lemma_line_of_before_all(starts.drop_last(), offset);
    }
}

/// An offset equal to a line start belongs to that line, not to the one
/// before it.
pub proof fn lemma_line_start_opens_its_line(starts: Seq<usize>, line: int)
    requires
        forall|i: int, j: int| 0 <= i < j < starts.len() ==> starts[i] < starts[j],
        0 <= line < starts.len(),
    ensures
        line_of(starts, starts[line] as int) == line,
{
    lemma_line_of_is(starts, starts[line] as int, line);
}

/// Every offset at or past the last line start belongs to the last line.
pub proof fn lemma_last_line_absorbs(starts: Seq<usize>, offset: int)
    requires
        starts.len() > 0,
        starts.last() <= offset,
    ensures
        line_of(starts, offset) == starts.len() - 1,
{
}

/// The line found is a valid index whenever there is a line at all.
pub proof fn lemma_line_of_in_range(starts: Seq<usize>, offset: int)
    ensures
        0 <= line_of(starts, offset),
        starts.len() > 0 ==> line_of(starts, offset) < starts.len(),
        starts.len() == 0 ==> line_of(starts, offset) == 0,
    decreases starts.len(),
{
    if starts.len() > 0 {
        lemma_line_of_in_range(starts.drop_last(), offset);
    }
}

/// With ascending line starts beginning at 0, the line found starts at
/// or before the offset, and the next line starts after it.
pub proof fn lemma_line_of_brackets(starts: Seq<usize>, offset: int)
    requires
        ascending(starts),
        starts.len() > 0,
        starts[0] <= offset,
    ensures
        starts[line_of(starts, offset)] <= offset,
        forall|j: int| line_of(starts, offset) < j < starts.len() ==> starts[j] > offset,
    decreases starts.len(),
{
    if starts.last() <= offset {
    } else {
        let shorter = starts.drop_last();
        assert(starts.last() == starts[starts.len() - 1]);
        assert(shorter.len() > 0);
        assert forall|i: int, j: int| 0 <= i <= j < shorter.len() implies shorter[i]
            <= shorter[j] by {
            assert(starts[i] <= starts[j]);
        }
        assert(shorter[0] == starts[0]);
        lemma_line_of_brackets(shorter, offset);
        lemma_line_of_in_range(shorter, offset);
        assert forall|j: int| line_of(starts, offset) < j < starts.len() implies starts[j]
            > offset by {
            if j < shorter.len() {
                assert(shorter[j] == starts[j]);
            }
        }
    }
}

/// What the index keeps about one registered document.
#[derive(Debug)]
pub struct Text {
    pub name: String,
    /// Offsets, relative to the document, at which its lines start.
    pub line_start_indices: Vec<usize>,
    /// Number of characters of the document.
    pub last_index: usize,
    /// Where the document starts in the shared character buffer.
    pub offset: usize,
    /// Offsets, relative to the document, at which its sentences end.
    pub sentence_end_indices: Vec<usize>,
}

impl Text {
    /// The record of a document without text that starts at `offset` of
    /// the buffer: one line, which starts at 0, and no sentence.
    pub fn new(name: &str, offset: usize) -> (text: Text)
        ensures
            text.name@ == name@,
            text.line_start_indices@ == seq![0usize],
            text.last_index == 0,
            text.offset == offset,
            text.sentence_end_indices@ == Seq::<usize>::empty(),
    {
        let mut line_start_indices: Vec<usize> = Vec::new();
        line_start_indices.push(0);
        Text {
            name: String::from_str(name),
            line_start_indices,
            last_index: 0,
            offset,
            sentence_end_indices: Vec::new(),
        }
    }

    /// Whether the character lies before the given line. A line index one
    /// past the last line stands for a line that starts after everything.
    pub fn char_before_line(&self, char_index: usize, line_index: usize) -> (before: bool)
        requires
            line_index <= self.line_start_indices.len(),
        ensures
            before == (line_index == self.line_start_indices.len() || char_index
                < self.line_start_indices[line_index as int]),
    {
        if line_index == self.line_start_indices.len() {
            true
        } else {
            char_index < self.line_start_indices[line_index]
        }
    }

    /// The line that holds the character at `char_index`.
    pub fn get_line_of_character(&self, char_index: usize) -> (line: usize)
        requires
            ascending(self.line_start_indices@),
        ensures
            line == line_of(self.line_start_indices@, char_index as int),
    {
        let count: usize = self.line_start_indices.len();
        if count == 0 {
            return 0;
        }
        if self.char_before_line(char_index, 0) {
            proof {
                let starts = self.line_start_indices@;
                assert forall|j: int| 0 <= j < starts.len() implies starts[j] > char_index by {
                    assert(starts[0] <= starts[j]);
                }
                lemma_line_of_before_all(starts, char_index as int);
            }
            return 0;
        }
        let mut lower_line_limit: usize = 0;
        let mut upper_line_limit: usize = count;
        while upper_line_limit - lower_line_limit > 1
            invariant
                count == self.line_start_indices.len(),
                ascending(self.line_start_indices@),
                lower_line_limit < upper_line_limit <= count,
                self.line_start_indices[lower_line_limit as int] <= char_index,
                forall|j: int|
                    upper_line_limit <= j < count ==> self.line_start_indices[j] > char_index,
            decreases upper_line_limit - lower_line_limit,
        {
            let current_line: usize = lower_line_limit + (upper_line_limit - lower_line_limit) / 2;
            if self.char_before_line(char_index, current_line) {
                proof {
                    let starts = self.line_start_indices@;
                    assert forall|j: int| current_line <= j < count implies starts[j]
                        > char_index by {
                        assert(starts[current_line as int] <= starts[j]);
                    }
                }
                upper_line_limit = current_line;
            } else {
                lower_line_limit = current_line;
            }
        }
        proof {
            lemma_line_of_is(
                self.line_start_indices@,
                char_index as int,
                lower_line_limit as int,
            );
        }
        lower_line_limit
    }

    /// The lines on which a span starts and ends. The end is taken at the
    /// offset just past the span.
    pub fn get_lines_of_substring(&self, start_index: usize, length: usize) -> (lines: (
        usize,
        usize,
    ))
        requires
            ascending(self.line_start_indices@),
            start_index + length <= usize::MAX,
        ensures
            lines.0 == line_of(self.line_start_indices@, start_index as int),
            lines.1 == line_of(self.line_start_indices@, start_index + length),
    {
        let start_line: usize = self.get_line_of_character(start_index);
        let end_line: usize = self.get_line_of_character(start_index + length);
        (start_line, end_line)
    }
}

} // verus!
