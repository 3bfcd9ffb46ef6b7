//! The documents of an index as plain values, to store an index and to
//! build it again.

use crate::index::{concat, ends_of, lemma_concat_piece, lemma_concat_push};
use crate::normalize::views;
use crate::trie::{Document, SuffixTrie};
use vstd::prelude::*;
use vstd::string::*;

verus! {

/// A document as plain values: its name and its sentences, as the index
/// holds them.
pub struct StoredDocument {
    pub name: String,
    pub sentences: Vec<Vec<char>>,
}

impl StoredDocument {
    /// The document that the values stand for.
    pub open spec fn document(&self) -> Document {
        Document { name: self.name@, sentences: views(self.sentences@) }
    }
}

/// The documents that a list of stored documents stands for.
pub open spec fn stored_documents(list: Seq<StoredDocument>) -> Seq<Document> {
    Seq::new(list.len(), |i: int| list[i].document())
}

impl SuffixTrie {
    /// The sentences of a document, as the index holds them.
    pub fn get_sentences(&self, text_index: usize) -> (sentences: Vec<Vec<char>>)
        requires
            self.wf(),
            text_index < self@.len(),
        ensures
            views(sentences@) == self@[text_index as int].sentences,
    {
        let ghost doc = self@[text_index as int];
        proof {
            self.lemma_wf();
            self.lemma_view();
            self.lemma_text_stored(text_index as int);
            assert(self.doc_linked(text_index as int));
        }
        let text = &self.texts[text_index];
        let mut sentences: Vec<Vec<char>> = Vec::new();
        let mut start: usize = 0;
        let mut k: usize = 0;
        proof {
            assert(doc.sentences.take(0) =~= Seq::<Seq<char>>::empty());
            assert(views(sentences@) =~= doc.sentences.take(0));
        }
        while k < text.sentence_end_indices.len()
            invariant
                self.wf(),
                text_index < self@.len(),
                doc == self@[text_index as int],
                *text == self.texts[text_index as int],
                text.sentence_end_indices@ == ends_of(doc.sentences),
                text.offset + doc.text().len() <= self.str_storage.len(),
                self.str_storage@.subrange(text.offset as int, text.offset + doc.text().len())
                    == doc.text(),
                k <= text.sentence_end_indices.len(),
                start == concat(doc.sentences.take(k as int)).len(),
                views(sentences@) == doc.sentences.take(k as int),
            decreases text.sentence_end_indices.len() - k,
        {
            proof {
                lemma_concat_piece(doc.sentences, k as int);
            }
            let end: usize = text.sentence_end_indices[k];
            let mut sentence: Vec<char> = Vec::new();
            let mut at: usize = start;
            while at < end
                invariant
                    start <= at <= end,
                    text.offset + end <= self.str_storage.len(),
                    sentence@ == self.str_storage@.subrange(
                        text.offset + start,
                        text.offset + at,
                    ),
                decreases end - at,
            {
                sentence.push(self.str_storage[text.offset + at]);
                proof {
                    assert(self.str_storage@.subrange(text.offset + start, text.offset + at + 1)
                        =~= self.str_storage@.subrange(
                        text.offset + start,
                        text.offset + at,
                    ).push(self.str_storage@[text.offset + at]));
                }
                at = at + 1;
            }
            let ghost before = sentences@;
            proof {
                let off = text.offset as int;
                let whole = doc.text();
                assert(sentence@ =~= doc.sentences[k as int]) by {
                    assert(whole.subrange(start as int, end as int) == doc.sentences[k as int]);
                    assert forall|i: int| 0 <= i < end - start implies #[trigger] sentence@[i]
                        == whole[start + i] by {
                        assert(self.str_storage@.subrange(off, off + whole.len())[start + i]
                            == self.str_storage@[off + start + i]);
                    }
                }
            }
            sentences.push(sentence);
            proof {
                assert(views(sentences@) =~= views(before).push(doc.sentences[k as int]));
                assert(doc.sentences.take(k as int + 1) =~= doc.sentences.take(k as int).push(
                    doc.sentences[k as int],
                ));
            }
            start = end;
            k = k + 1;
        }
        proof {
            assert(doc.sentences.take(doc.sentences.len() as int) =~= doc.sentences);
        }
        sentences
    }

    /// The documents of the index as plain values.
    pub fn documents(&self) -> (docs: Vec<StoredDocument>)
        requires
            self.wf(),
        ensures
            stored_documents(docs@) == self@,
    {
        let names = self.get_text_names();
        let mut docs: Vec<StoredDocument> = Vec::new();
        let mut d: usize = 0;
        while d < names.len()
            invariant
                self.wf(),
                names.len() == self@.len(),
                forall|k: int| 0 <= k < self@.len() ==> (#[trigger] names[k])@ == self@[k].name,
                d <= names.len(),
                docs.len() == d,
                forall|k: int| 0 <= k < d ==> (#[trigger] docs[k]).document() == self@[k],
            decreases names.len() - d,
        {
            let sentences = self.get_sentences(d);
            docs.push(StoredDocument { name: names[d].clone(), sentences });
            d = d + 1;
        }
        proof {
            assert(stored_documents(docs@) =~= self@);
        }
        docs
    }

    /// The index that holds the given documents: their sentences are
    /// taken as they are and all their suffixes indexed.
    pub fn from_documents(docs: &Vec<StoredDocument>) -> (trie: SuffixTrie)
        ensures
            trie.wf(),
            trie@ == stored_documents(docs@),
    {
        let mut trie = SuffixTrie::empty();
        let mut d: usize = 0;
        proof {
            assert(stored_documents(docs@).take(0) =~= Seq::<Document>::empty());
        }
        while d < docs.len()
            invariant
                trie.wf(),
                d <= docs.len(),
                trie@ == stored_documents(docs@).take(d as int),
            decreases docs.len() - d,
        {
            let ghost done = trie@;
            let ghost wanted = docs@[d as int].document();
            proof {
                trie.lemma_view();
            }
            let text_index = trie.add_text(docs[d].name.as_str());
            proof {
                trie.lemma_view();
            }
            let mut sentence_start: usize = 0;
            let mut k: usize = 0;
            proof {
                assert(wanted.sentences.take(0) =~= Seq::<Seq<char>>::empty());
                assert(trie@[text_index as int].text() =~= Seq::<char>::empty());
            }
            while k < docs[d].sentences.len()
                invariant
                    trie.wf(),
                    d < docs.len(),
                    wanted == docs@[d as int].document(),
                    k <= docs[d as int].sentences.len(),
                    text_index == done.len(),
                    trie@ == done.push(
                        Document { name: wanted.name, sentences: wanted.sentences.take(k as int) },
                    ),
                    sentence_start == trie@[text_index as int].text().len(),
                decreases docs[d as int].sentences.len() - k,
            {
                let ghost sentence = docs@[d as int].sentences@[k as int]@;
                proof {
                    assert(wanted.sentences[k as int] == sentence);
                    assert(wanted.sentences.take(k as int + 1) =~= wanted.sentences.take(
                        k as int,
                    ).push(sentence));
                    lemma_concat_push(wanted.sentences.take(k as int), sentence);
                }
                let num_chars = trie.add_normalized_suffixes(
                    &docs[d].sentences[k],
                    sentence_start,
                    text_index,
                );
                proof {
                    assert(trie@ =~= done.push(
                        Document {
                            name: wanted.name,
                            sentences: wanted.sentences.take(k as int + 1),
                        },
                    ));
                    trie.lemma_text_fits(text_index as int);
                }
                sentence_start = sentence_start + num_chars;
                k = k + 1;
            }
            proof {
                assert(wanted.sentences.take(wanted.sentences.len() as int) =~= wanted.sentences);
                assert(stored_documents(docs@).take(d as int + 1) =~= stored_documents(docs@).take(
                    d as int,
                ).push(wanted));
            }
            d = d + 1;
        }
        proof {
            assert(stored_documents(docs@).take(docs.len() as int) =~= stored_documents(docs@));
        }
        trie
    }

    /// The index built again from its own documents. It holds the same
    /// documents, so it answers every query as this index does.
    pub fn rebuilt(&self) -> (trie: SuffixTrie)
        requires
            self.wf(),
        ensures
            trie.wf(),
            trie@ == self@,
    {
        let docs = self.documents();
        SuffixTrie::from_documents(&docs)
    }
}

} // verus!
