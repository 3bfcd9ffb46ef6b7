//! The index as a list of documents: what a well-formed index holds, and
//! how documents are registered.

use crate::lines::{line_starts_of, Text};
use crate::normalize::{
    chars_of, is_plain, lemma_split_plain, sentences_of, split_sentences, transliterate,
    transliteration, views,
};
use crate::trie::{Document, Shape, SubTrie, SuffixTrie};
use vstd::prelude::*;

verus! {

/// The sentences put one after the other.
pub open spec fn concat(sentences: Seq<Seq<char>>) -> Seq<char>
    decreases sentences.len(),
{
    if sentences.len() == 0 {
        Seq::empty()
    } else {
        concat(sentences.drop_last()) + sentences.last()
    }
}

/// The offset, in the text of all sentences, at which the sentence that
/// holds offset `pos` ends.
pub open spec fn sentence_end(sentences: Seq<Seq<char>>, pos: int) -> int
    decreases sentences.len(),
{
    if sentences.len() == 0 {
        0
    } else if pos >= concat(sentences.drop_last()).len() {
        concat(sentences).len() as int
    } else {
        sentence_end(sentences.drop_last(), pos)
    }
}

/// The offsets at which the sentences end in the text of all sentences.
pub open spec fn ends_of(sentences: Seq<Seq<char>>) -> Seq<usize> {
    Seq::new(sentences.len(), |k: int| concat(sentences.take(k + 1)).len() as usize)
}

/// Where document `d` starts in the text of all documents.
pub open spec fn start_of(docs: Seq<Document>, d: int) -> int
    decreases d,
{
    if d <= 0 {
        0
    } else {
        start_of(docs, d - 1) + docs[d - 1].text().len()
    }
}

/// Number of characters of all documents together.
pub open spec fn total_len(docs: Seq<Document>) -> int {
    start_of(docs, docs.len() as int)
}

/// The sentences of a raw text, each transliterated.
pub open spec fn normalized_sentences(text: Seq<char>) -> Seq<Seq<char>> {
    Seq::new(split_sentences(text).len(), |i: int| transliteration(split_sentences(text)[i]))
}

impl Document {
    /// The whole text of the document.
    pub open spec fn text(self) -> Seq<char> {
        concat(self.sentences)
    }

    /// The offset at which the sentence holding offset `pos` ends. The
    /// suffix indexed for `pos` goes up to there.
    pub open spec fn suffix_end(self, pos: int) -> int {
        sentence_end(self.sentences, pos)
    }

    /// The offsets at which the lines of the document start.
    pub open spec fn line_starts(self) -> Seq<usize> {
        line_starts_of(self.text())
    }

    /// The document with one more sentence.
    pub open spec fn with_sentence(self, sentence: Seq<char>) -> Document {
        Document { name: self.name, sentences: self.sentences.push(sentence) }
    }
}

/// The text of the sentences with one more sentence.
pub proof fn lemma_concat_push(sentences: Seq<Seq<char>>, s: Seq<char>)
    ensures
        concat(sentences.push(s)) == concat(sentences) + s,
{
    assert(sentences.push(s).drop_last() =~= sentences);
}

/// The ends of the sentences with one more sentence.
pub proof fn lemma_ends_of_push(sentences: Seq<Seq<char>>, s: Seq<char>)
    ensures
        ends_of(sentences.push(s)) == ends_of(sentences).push(
            concat(sentences.push(s)).len() as usize,
        ),
{
    let longer = sentences.push(s);
    assert forall|k: int| 0 <= k < longer.len() implies #[trigger] ends_of(longer)[k] == ends_of(
        sentences,
    ).push(concat(longer).len() as usize)[k] by {
        if k < sentences.len() {
            assert(longer.take(k + 1) =~= sentences.take(k + 1));
        } else {
            assert(longer.take(k + 1) =~= longer);
        }
    }
    assert(ends_of(longer) =~= ends_of(sentences).push(concat(longer).len() as usize));
}

/// Sentence `k` is the piece of the whole text between the end of the
/// sentence before it and its own end.
pub proof fn lemma_concat_piece(sentences: Seq<Seq<char>>, k: int)
    requires
        0 <= k < sentences.len(),
    ensures
        concat(sentences.take(k)).len() + sentences[k].len() == concat(sentences.take(k + 1)).len(),
        concat(sentences.take(k + 1)).len() <= concat(sentences).len(),
        concat(sentences).subrange(
            concat(sentences.take(k)).len() as int,
            concat(sentences.take(k + 1)).len() as int,
        ) == sentences[k],
    decreases sentences.len(),
{
    let shorter = sentences.drop_last();
    if k == sentences.len() - 1 {
        assert(sentences.take(k) =~= shorter);
        assert(sentences.take(k + 1) =~= sentences);
        assert(concat(sentences).subrange(
            concat(shorter).len() as int,
            concat(sentences).len() as int,
        ) =~= sentences[k]);
    } else {
        lemma_concat_piece(shorter, k);
        assert(sentences.take(k) =~= shorter.take(k));
        assert(sentences.take(k + 1) =~= shorter.take(k + 1));
        assert(concat(sentences).subrange(
            concat(sentences.take(k)).len() as int,
            concat(sentences.take(k + 1)).len() as int,
        ) =~= concat(shorter).subrange(
            concat(shorter.take(k)).len() as int,
            concat(shorter.take(k + 1)).len() as int,
        ));
    }
}

/// A sentence ends inside the text, after the offsets it holds.
pub proof fn lemma_sentence_end_bounds(sentences: Seq<Seq<char>>, pos: int)
    requires
        0 <= pos < concat(sentences).len(),
    ensures
        pos < sentence_end(sentences, pos) <= concat(sentences).len(),
    decreases sentences.len(),
{
    if sentences.len() > 0 && pos < concat(sentences.drop_last()).len() {
        lemma_sentence_end_bounds(sentences.drop_last(), pos);
    }
}

/// One more sentence leaves the ends of the sentences before as they
/// are; the offsets past them belong to the new sentence.
pub proof fn lemma_sentence_end_push(sentences: Seq<Seq<char>>, s: Seq<char>, pos: int)
    ensures
        pos < concat(sentences).len() ==> sentence_end(sentences.push(s), pos) == sentence_end(
            sentences,
            pos,
        ),
        pos >= concat(sentences).len() ==> sentence_end(sentences.push(s), pos) == concat(
            sentences,
        ).len() + s.len(),
{
    assert(sentences.push(s).drop_last() =~= sentences);
}

/// One more character of text adds a line start exactly where the
/// character is a line break.
pub proof fn lemma_line_starts_step(text: Seq<char>, k: int)
    requires
        0 <= k < text.len(),
    ensures
        line_starts_of(text.take(k + 1)) == if text[k] == '\n' {
            line_starts_of(text.take(k)).push((k + 1) as usize)
        } else {
            line_starts_of(text.take(k))
        },
{
    assert(text.take(k + 1).drop_last() =~= text.take(k));
}

/// Line starts begin with 0, rise strictly and stay within the text.
pub proof fn lemma_line_starts_ascend(text: Seq<char>)
    requires
        text.len() <= usize::MAX,
    ensures
        line_starts_of(text).len() >= 1,
        line_starts_of(text)[0] == 0,
        forall|i: int, j: int|
            0 <= i < j < line_starts_of(text).len() ==> line_starts_of(text)[i] < line_starts_of(
                text,
            )[j],
        forall|i: int|
            0 <= i < line_starts_of(text).len() ==> #[trigger] line_starts_of(text)[i]
                <= text.len(),
        line_starts_of(text).len() <= text.len() + 1,
    decreases text.len(),
{
    if text.len() > 0 {
        lemma_line_starts_ascend(text.drop_last());
    }
}

/// One more document leaves the starts of the documents before as
/// they are.
pub proof fn lemma_start_of_push(docs: Seq<Document>, doc: Document, d: int)
    requires
        0 <= d <= docs.len(),
    ensures
        start_of(docs.push(doc), d) == start_of(docs, d),
    decreases d,
{
    if d > 0 {
        lemma_start_of_push(docs, doc, d - 1);
    }
}

/// A change to a document leaves its start and the starts of the
/// documents before it as they are.
pub proof fn lemma_start_of_update(docs: Seq<Document>, last: int, doc: Document, d: int)
    requires
        0 <= d <= last < docs.len(),
    ensures
        start_of(docs.update(last, doc), d) == start_of(docs, d),
    decreases d,
{
    if d > 0 {
        lemma_start_of_update(docs, last, doc, d - 1);
    }
}

/// Documents start one after the other.
pub proof fn lemma_start_of_rises(docs: Seq<Document>, a: int, b: int)
    requires
        0 <= a <= b <= docs.len(),
    ensures
        0 <= start_of(docs, a) <= start_of(docs, b),
        a < b ==> start_of(docs, a) + docs[a].text().len() <= start_of(docs, b),
    decreases b,
{
    if a < b {
        lemma_start_of_rises(docs, a, b - 1);
    } else if a > 0 {
        lemma_start_of_rises(docs, a - 1, a - 1);
    }
}

impl View for SuffixTrie {
    type V = Seq<Document>;

    /// The registered documents, in registration order.
    closed spec fn view(&self) -> Seq<Document> {
        self.shape@.docs
    }
}

impl SuffixTrie {
    /// The documents, for use inside the crate.
    pub open(crate) spec fn docs(&self) -> Seq<Document> {
        self.shape@.docs
    }

    /// The view is the list of documents.
    pub(crate) proof fn lemma_view(&self)
        ensures
            self@ == self.docs(),
    {
    }

    /// The stored data of document `d` is what the document says, as far
    /// as its suffixes are indexed.
    pub open(crate) spec fn doc_linked(&self, d: int) -> bool {
        let doc = self.docs()[d];
        let text = doc.text();
        let filled = self.shape@.home[d].len() as int;
        &&& self.texts[d].name@ == doc.name
        &&& self.texts[d].offset == start_of(self.docs(), d)
        &&& self.texts[d].last_index == text.len()
        &&& self.str_storage@.subrange(
            self.texts[d].offset as int,
            self.texts[d].offset + text.len(),
        ) == text
        &&& filled <= text.len()
        &&& self.texts[d].line_start_indices@ == line_starts_of(text.take(filled))
        &&& self.texts[d].sentence_end_indices@ == ends_of(doc.sentences)
        &&& forall|pos: int|
            0 <= pos < filled ==> #[trigger] self.shape@.ends[d][pos] == doc.suffix_end(pos)
    }

    /// The stored data agree with the documents.
    pub open(crate) spec fn linked(&self) -> bool {
        &&& self.texts.len() == self.docs().len()
        &&& self.str_storage.len() == start_of(self.docs(), self.docs().len() as int)
        &&& forall|d: int| 0 <= d < self.docs().len() ==> #[trigger] self.doc_linked(d)
    }

    /// Every position of document `d` is indexed.
    pub open(crate) spec fn complete(&self, d: int) -> bool {
        self.shape@.home[d].len() == self.docs()[d].text().len()
    }

    /// The index is well formed: the trie holds exactly the suffixes of
    /// the sentences of the registered documents, and no node that they
    /// do not need.
    pub closed spec fn wf(&self) -> bool {
        &&& self.built()
        &&& self.model().tidy()
        &&& self.linked()
        &&& forall|d: int| 0 <= d < self.docs().len() ==> #[trigger] self.complete(d)
        &&& self.node_storage.len() <= 2 * self.str_storage.len() + 1
    }

    /// What it means for the index to be well formed: the trie is in
    /// order, every node but the root holds a marker or has at least two
    /// children, the stored data agree with the documents, every
    /// position of every document is indexed, and there are at most two
    /// nodes for each character of text, besides the root.
    pub proof fn lemma_wf(&self)
        ensures
            self.wf() == (self.built() && self.model().tidy() && self.linked() && (forall|d: int|
                0 <= d < self.docs().len() ==> #[trigger] self.complete(d))
                && self.model().nodes.len() <= 2 * total_len(self@) + 1),
            self.wf() ==> self@ == self.docs(),
    {
    }

    /// New empty suffix trie.
    pub fn empty() -> (trie: SuffixTrie)
        ensures
            trie.wf(),
            trie@ == Seq::<Document>::empty(),
    {
        let root_node = SubTrie::empty(0, 0, 0);
        let mut node_storage: Vec<SubTrie> = Vec::new();
        node_storage.push(root_node);
        let trie = SuffixTrie {
            str_storage: Vec::new(),
            node_storage,
            texts: Vec::new(),
            shape: Ghost(
                Shape {
                    docs: Seq::empty(),
                    parent: seq![-1int],
                    depth: seq![0int],
                    home: Seq::empty(),
                    ends: Seq::empty(),
                },
            ),
        };
        proof {
            let m = trie.model();
            assert(m.kids_ok(0));
            assert(m.leaves_ok(0));
            assert forall|a: int, h: int| #[trigger] m.clash(a, h) implies a == h by {}
            assert(m.inv());
        }
        trie
    }

    /// Registers a new document without text and returns its index.
    pub(crate) fn add_text(&mut self, text_name: &str) -> (text_index: usize)
        requires
            old(self).wf(),
        ensures
            final(self).wf(),
            final(self).docs() == old(self).docs().push(
                Document { name: text_name@, sentences: Seq::empty() },
            ),
            text_index == old(self).docs().len(),
    {
        let ghost m = self.model();
        let ghost docs = self.docs();
        let ghost doc = Document { name: text_name@, sentences: Seq::empty() };
        let offset: usize = self.str_storage.len();
        self.texts.push(Text::new(text_name, offset));
        let text_index: usize = self.texts.len() - 1;
        proof {
            let shape = self.shape@;
            let t = m.with_doc(offset as int);
            self.shape@ = Shape { docs: docs.push(doc), home: t.home, ends: t.ends, ..shape };
            assert(self.model().nodes =~~= t.nodes);
            assert(self.model().offsets =~= t.offsets);
            assert(self.model() =~~= t);
            m.lemma_with_doc(offset as int);
            m.lemma_tidy_of_nodes(t);
            assert(doc.text() =~= Seq::<char>::empty());
            assert(ends_of(doc.sentences) =~= Seq::<usize>::empty());
            assert forall|d: int| 0 <= d < self.docs().len() implies #[trigger] self.doc_linked(
                d,
            ) by {
                lemma_start_of_push(docs, doc, d);
                if d < docs.len() {
                    assert(old(self).doc_linked(d));
                } else {
                    assert(doc.text().take(0) =~= Seq::<char>::empty());
                    assert(self.str_storage@.subrange(offset as int, offset as int)
                        =~= Seq::<char>::empty());
                }
            }
            assert forall|d: int| 0 <= d < self.docs().len() implies #[trigger] self.complete(
                d,
            ) by {
                if d < docs.len() {
                    assert(old(self).complete(d));
                }
            }
            lemma_start_of_push(docs, doc, docs.len() as int);
            assert(self.docs().len() == docs.len() + 1);
            assert(start_of(self.docs(), self.docs().len() as int) == start_of(
                self.docs(),
                docs.len() as int,
            ) + self.docs()[docs.len() as int].text().len());
        }
        text_index
    }

    /// Adds an already transliterated sentence to the last document and
    /// indexes all its suffixes. `start_index` is the length the
    /// document had so far. Returns the number of characters added.
    pub fn add_normalized_suffixes(
        &mut self,
        ascii: &Vec<char>,
        start_index: usize,
        text_index: usize,
    ) -> (num_chars: usize)
        requires
            old(self).wf(),
            text_index + 1 == old(self)@.len(),
            start_index == old(self)@[text_index as int].text().len(),
        ensures
            final(self).wf(),
            final(self)@ == old(self)@.update(
                text_index as int,
                old(self)@[text_index as int].with_sentence(ascii@),
            ),
            num_chars == ascii.len(),
    {
        let ghost m0 = self.model();
        let ghost docs0 = self.docs();
        let ghost doc0 = docs0[text_index as int];
        let ghost doc1 = doc0.with_sentence(ascii@);
        let ghost docs1 = docs0.update(text_index as int, doc1);
        let ghost buf0 = self.str_storage@;
        proof {
            assert(old(self).doc_linked(text_index as int));
            assert(old(self).complete(text_index as int));
            lemma_concat_push(doc0.sentences, ascii@);
            lemma_ends_of_push(doc0.sentences, ascii@);
        }
        let base: usize = self.str_storage.len();
        let num_chars: usize = ascii.len();
        let mut j: usize = 0;
        while j < num_chars
            invariant
                j <= num_chars == ascii.len(),
                self.str_storage@ == buf0 + ascii@.take(j as int),
                self.node_storage == old(self).node_storage,
                self.texts == old(self).texts,
                self.shape == old(self).shape,
            decreases num_chars - j,
        {
            self.str_storage.push(ascii[j]);
            proof {
                assert(ascii@.take(j as int + 1) =~= ascii@.take(j as int).push(ascii@[j as int]));
                assert(self.str_storage@ =~= buf0 + ascii@.take(j as int + 1));
            }
            j = j + 1;
        }
        proof {
            assert(ascii@.take(num_chars as int) =~= ascii@);
            assert(self.str_storage.len() == buf0.len() + ascii@.len());
        }
        self.texts[text_index].last_index = self.texts[text_index].last_index + num_chars;
        let sentence_end: usize = self.texts[text_index].last_index;
        self.texts[text_index].sentence_end_indices.push(sentence_end);
        proof {
            let shape = self.shape@;
            self.shape@ = Shape { docs: docs1, ..shape };
            let t = m0.with_text(ascii@);
            assert(self.model().nodes =~~= t.nodes);
            assert(self.model().offsets =~= t.offsets);
            assert(self.model() =~~= t);
            m0.lemma_with_text(ascii@);
            m0.lemma_tidy_of_nodes(t);
            assert forall|d: int| 0 <= d < docs1.len() implies #[trigger] self.doc_linked(d) by {
                assert(old(self).doc_linked(d));
                assert(old(self).complete(d));
                lemma_start_of_update(docs0, text_index as int, doc1, d);
                lemma_start_of_rises(docs0, d, docs0.len() as int);
                let off = self.texts[d].offset as int;
                if d < text_index {
                    let text = docs0[d].text();
                    assert(self.str_storage@.subrange(off, off + text.len()) =~= buf0.subrange(
                        off,
                        off + text.len(),
                    ));
                } else {
                    let text0 = doc0.text();
                    let text1 = doc1.text();
                    assert(self.str_storage@.subrange(off, off + text1.len()) =~= text1) by {
                        assert(buf0.subrange(off, off + text0.len()) == text0);
                        assert forall|i: int| 0 <= i < text1.len() implies #[trigger] text1[i]
                            == self.str_storage@[off + i] by {
                            if i < text0.len() {
                                assert(buf0.subrange(off, off + text0.len())[i] == buf0[off + i]);
                            }
                        }
                    }
                    assert(text1.take(text0.len() as int) =~= text0.take(text0.len() as int));
                    assert forall|pos: int| 0 <= pos < text0.len() implies #[trigger] self.shape@.ends[d][pos]
                        == doc1.suffix_end(pos) by {
                        lemma_sentence_end_push(doc0.sentences, ascii@, pos);
                    }
                }
            }
            assert(start_of(docs1, docs1.len() as int) == start_of(docs0, docs0.len() as int)
                + ascii@.len()) by {
                lemma_start_of_update(docs0, text_index as int, doc1, text_index as int);
            }
            assert forall|d: int| 0 <= d < text_index implies #[trigger] self.complete(d) by {
                assert(old(self).complete(d));
            }
        }
        let until: usize = self.str_storage.len();
        let mut index: usize = 0;
        while index < num_chars
            invariant
                index <= num_chars == ascii.len(),
                self.built(),
                self.model().tidy(),
                self.linked(),
                self.docs() == docs1,
                self.str_storage@ == buf0 + ascii@,
                until == self.str_storage.len(),
                base == buf0.len(),
                text_index + 1 == docs1.len(),
                base == start_of(docs0, text_index as int) + start_index,
                start_index == doc0.text().len(),
                doc1 == doc0.with_sentence(ascii@),
                docs1 == docs0.update(text_index as int, doc1),
                docs0.len() == docs1.len(),
                doc1.text() == doc0.text() + ascii@,
                self.shape@.home[text_index as int].len() == start_index + index,
                forall|d: int| 0 <= d < text_index ==> #[trigger] self.complete(d),
                self.node_storage.len() <= 2 * base + 1 + 2 * index,
            decreases num_chars - index,
        {
            let ghost before = *self;
            proof {
                assert(self.doc_linked(text_index as int));
            }
            let c: char = self.str_storage[base + index];
            if c == '\n' {
                self.texts[text_index].line_start_indices.push(index + start_index + 1);
            }
            proof {
                assert(self.model() =~~= before.model());
            }
            self.add_suffix(until, start_index + index, text_index);
            proof {
                let pos = start_index + index;
                let text1 = doc1.text();
                assert(text1[pos] == c) by {
                    let off = before.texts[text_index as int].offset as int;
                    assert(before.str_storage@.subrange(off, off + text1.len())[pos]
                        == before.str_storage@[off + pos]);
                }
                lemma_line_starts_step(text1, pos);
                assert forall|d: int| 0 <= d < docs1.len() implies #[trigger] self.doc_linked(
                    d,
                ) by {
                    assert(before.doc_linked(d));
                    if d == text_index {
                        assert forall|p: int| 0 <= p < pos + 1 implies #[trigger] self.shape@.ends[d][p]
                            == doc1.suffix_end(p) by {
                            if p == pos {
                                lemma_sentence_end_push(doc0.sentences, ascii@, p);
                            }
                        }
                    }
                }
                assert forall|d: int| 0 <= d < text_index implies #[trigger] self.complete(d) by {
                    assert(before.complete(d));
                }
            }
            index = index + 1;
        }
        proof {
            assert forall|d: int| 0 <= d < self.docs().len() implies #[trigger] self.complete(
                d,
            ) by {}
        }
        num_chars
    }

    /// Transliterates a sentence, adds it to the last document and
    /// indexes all its suffixes. Returns the number of characters the
    /// transliterated sentence has. A sentence whose characters all lie
    /// below U+007F is its own transliteration.
    pub fn add_string_suffixes(&mut self, string: &Vec<char>, start_index: usize, text_index: usize) -> (num_chars:
        usize)
        requires
            old(self).wf(),
            text_index + 1 == old(self)@.len(),
            start_index == old(self)@[text_index as int].text().len(),
        ensures
            final(self).wf(),
            final(self)@ == old(self)@.update(
                text_index as int,
                old(self)@[text_index as int].with_sentence(transliteration(string@)),
            ),
            num_chars == transliteration(string@).len(),
            is_plain(string@) ==> num_chars == string.len() && transliteration(string@) == string@,
    {
        let ascii_string = transliterate(string);
        self.add_normalized_suffixes(&ascii_string, start_index, text_index)
    }

    /// New suffix trie containing the suffixes of a single string, taken
    /// as one sentence of a document named "first text". A string whose
    /// characters all lie below U+007F is indexed as it is.
    pub fn new(string: &str) -> (trie: SuffixTrie)
        ensures
            trie.wf(),
            trie@ == seq![
                Document { name: "first text"@, sentences: seq![transliteration(string@)] },
            ],
            is_plain(string@) ==> trie@ == seq![
                Document { name: "first text"@, sentences: seq![string@] },
            ],
    {
        let mut suffix_trie = SuffixTrie::empty();
        let text_index = suffix_trie.add_text("first text");
        let chars = chars_of(string);
        proof {
            assert(suffix_trie@[0].text() =~= Seq::<char>::empty());
        }
        suffix_trie.add_string_suffixes(&chars, 0, text_index);
        proof {
            assert(suffix_trie@ =~= seq![
                Document { name: "first text"@, sentences: seq![transliteration(string@)] },
            ]) by {
                assert(Seq::<Seq<char>>::empty().push(transliteration(string@)) =~= seq![
                    transliteration(string@),
                ]);
            }
        }
        suffix_trie
    }

    /// Registers a document: splits the text into sentences at every
    /// separator, transliterates each sentence and indexes all suffixes
    /// of every sentence. Returns the index of the new document. The
    /// sentences of a text whose characters all lie below U+007F are
    /// indexed as they are.
    pub fn add_sentences_from_text(&mut self, text_name: &str, contents: &str) -> (text_index:
        usize)
        requires
            old(self).wf(),
        ensures
            final(self).wf(),
            final(self)@ == old(self)@.push(
                Document { name: text_name@, sentences: normalized_sentences(contents@) },
            ),
            is_plain(contents@) ==> final(self)@ == old(self)@.push(
                Document { name: text_name@, sentences: split_sentences(contents@) },
            ),
            text_index == old(self)@.len(),
    {
        let chars = chars_of(contents);
        let sentences = sentences_of(&chars);
        let text_index = self.add_text(text_name);
        let ghost docs0 = old(self).docs();
        let ghost wanted = normalized_sentences(contents@);
        let mut sentence_start: usize = 0;
        let mut i: usize = 0;
        proof {
            assert(self@[text_index as int].text() =~= Seq::<char>::empty());
            assert(wanted.take(0) =~= Seq::<Seq<char>>::empty());
        }
        while i < sentences.len()
            invariant
                i <= sentences.len(),
                views(sentences@) == split_sentences(contents@),
                wanted == normalized_sentences(contents@),
                forall|k: int|
                    0 <= k < i && is_plain(split_sentences(contents@)[k]) ==> #[trigger] wanted[k]
                        == split_sentences(contents@)[k],
                self.wf(),
                text_index == docs0.len(),
                self@ == docs0.push(
                    Document { name: text_name@, sentences: wanted.take(i as int) },
                ),
                sentence_start == self@[text_index as int].text().len(),
            decreases sentences.len() - i,
        {
            let ghost sentence = transliteration(sentences@[i as int]@);
            proof {
                assert(views(sentences@)[i as int] == sentences@[i as int]@);
                assert(wanted[i as int] == sentence);
                assert(wanted.take(i as int + 1) =~= wanted.take(i as int).push(sentence));
                lemma_concat_push(wanted.take(i as int), sentence);
            }
            let num_chars = self.add_string_suffixes(&sentences[i], sentence_start, text_index);
            proof {
                assert(self@ =~= docs0.push(
                    Document { name: text_name@, sentences: wanted.take(i as int + 1) },
                ));
                assert(self@[text_index as int].text().len() <= usize::MAX) by {
                    self.lemma_text_fits(text_index as int);
                }
            }
            sentence_start = sentence_start + num_chars;
            i = i + 1;
        }
        proof {
            assert(wanted.take(sentences.len() as int) =~= wanted);
            if is_plain(contents@) {
                lemma_split_plain(contents@, 0, Seq::empty());
                assert(wanted =~= split_sentences(contents@));
            }
        }
        text_index
    }

    /// New suffix trie containing the suffixes of each sentence of the
    /// given contents, registered under the path they were read from.
    /// The sentences of contents whose characters all lie below U+007F
    /// are indexed as they are.
    pub fn from_file(path: &str, contents: &str) -> (trie: SuffixTrie)
        ensures
            trie.wf(),
            trie@ == seq![Document { name: path@, sentences: normalized_sentences(contents@) }],
            is_plain(contents@) ==> trie@ == seq![
                Document { name: path@, sentences: split_sentences(contents@) },
            ],
    {
        let mut suffix_trie = SuffixTrie::empty();
        suffix_trie.add_sentences_from_text(path, contents);
        proof {
            assert(suffix_trie@ =~= seq![
                Document { name: path@, sentences: normalized_sentences(contents@) },
            ]);
            if is_plain(contents@) {
                assert(suffix_trie@ =~= seq![
                    Document { name: path@, sentences: split_sentences(contents@) },
                ]);
            }
        }
        suffix_trie
    }

    /// The text of every document fits the machine's integers.
    pub proof fn lemma_text_fits(&self, d: int)
        requires
            self.wf(),
            0 <= d < self@.len(),
        ensures
            self@[d].text().len() <= usize::MAX,
    {
        assert(self.doc_linked(d));
    }

    /// The names of the documents, in registration order.
    pub fn get_text_names(&self) -> (text_names: Vec<String>)
        requires
            self.wf(),
        ensures
            text_names.len() == self@.len(),
            forall|d: int| 0 <= d < self@.len() ==> (#[trigger] text_names[d])@ == self@[d].name,
    {
        let mut text_names: Vec<String> = Vec::new();
        let mut d: usize = 0;
        while d < self.texts.len()
            invariant
                self.wf(),
                d <= self.texts.len(),
                text_names.len() == d,
                forall|k: int| 0 <= k < d ==> (#[trigger] text_names[k])@ == self.docs()[k].name,
            decreases self.texts.len() - d,
        {
            proof {
                assert(self.doc_linked(d as int));
            }
            text_names.push(self.texts[d].name.clone());
            d = d + 1;
        }
        text_names
    }
}

} // verus!
