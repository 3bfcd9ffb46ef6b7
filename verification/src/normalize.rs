//! Text preparation: transliteration to ASCII, conversion between
//! strings and character vectors, and splitting a text into sentences.

use vstd::prelude::*;
use vstd::string::*;

verus! {

/// The ASCII transliteration that `deunicode::deunicode` gives for a
/// string, as a function of the string's characters.
pub uninterp spec fn transliteration(text: Seq<char>) -> Seq<char>;

/// Every character of the text lies below U+007F.
pub open spec fn is_plain(text: Seq<char>) -> bool {
    forall|i: int| 0 <= i < text.len() ==> ((#[trigger] text[i]) as u32) < 0x7f
}

/// Calls `deunicode::deunicode` on the given characters. The contract
/// names the outcome, which depends on the argument alone, and claims
/// one thing more: a text whose characters all lie below U+007F comes
/// back as it is, since the function hands such a string back untouched.
#[verifier::external_body]
pub(crate) fn transliterate(text: &Vec<char>) -> (ascii: Vec<char>)
    ensures
        ascii@ == transliteration(text@),
        is_plain(text@) ==> ascii@ == text@,
{
    let owned: String = text.iter().collect();
    deunicode::deunicode(&owned).chars().collect()
}

/// `String::push` appends one character.
pub assume_specification[ String::push ](s: &mut String, c: char)
    ensures
        final(s)@ == old(s)@.push(c),
;

/// The characters of a string slice, in order.
pub fn chars_of(s: &str) -> (chars: Vec<char>)
    ensures
        chars@ == s@,
{
    let mut chars: Vec<char> = Vec::new();
    for c in it: s.chars()
        invariant
            chars@ == it.seq().take(it.index() as int),
    {
        chars.push(c);
    }
    chars
}

/// The string made of `chars[start..end]`.
pub fn string_of(chars: &Vec<char>, start: usize, end: usize) -> (s: String)
    requires
        start <= end <= chars.len(),
    ensures
        s@ == chars@.subrange(start as int, end as int),
{
    let mut s: String = String::new();
    let mut i: usize = start;
    while i < end
        invariant
            start <= i <= end <= chars.len(),
            s@ == chars@.subrange(start as int, i as int),
        decreases end - i,
    {
        s.push(chars[i]);
        proof {
            assert(chars@.subrange(start as int, i as int + 1) =~= chars@.subrange(
                start as int,
                i as int,
            ).push(chars@[i as int]));
        }
        i = i + 1;
    }
    s
}

/// The token that separates the sentences of a text.
pub open spec fn stop_marker() -> Seq<char> {
    seq!['<', '<', 'S', 'T', 'O', 'P', '>', '>']
}

/// The sentence separator stands at offset `i` of `text`.
pub open spec fn marker_at(text: Seq<char>, i: int) -> bool {
    0 <= i && i + 8 <= text.len() && text.subrange(i, i + 8) == stop_marker()
}

/// The sentences of `text` from offset `i` on, read left to right, where
/// `current` holds the characters already read of the sentence in
/// progress. Every separator found closes a sentence and is dropped.
pub open spec fn split_from(text: Seq<char>, i: int, current: Seq<char>) -> Seq<Seq<char>>
    decreases text.len() - i,
{
    if i < 0 || i >= text.len() {
        seq![current]
    } else if marker_at(text, i) {
        seq![current] + split_from(text, i + 8, Seq::empty())
    } else {
        split_from(text, i + 1, current.push(text[i]))
    }
}

/// The sentences of a text: the pieces between separators. A text
/// without a separator is one sentence, and so is the empty text.
pub open spec fn split_sentences(text: Seq<char>) -> Seq<Seq<char>> {
    split_from(text, 0, Seq::empty())
}

/// The sentences of a text whose characters all lie below U+007F are
/// made of such characters.
pub proof fn lemma_split_plain(text: Seq<char>, i: int, current: Seq<char>)
    requires
        is_plain(text),
        is_plain(current),
    ensures
        forall|k: int|
            0 <= k < split_from(text, i, current).len() ==> is_plain(
                #[trigger] split_from(text, i, current)[k],
            ),
    decreases text.len() - i,
{
    let all = split_from(text, i, current);
    if i < 0 || i >= text.len() {
        assert(all =~= seq![current]);
        assert forall|k: int| 0 <= k < all.len() implies is_plain(#[trigger] all[k]) by {
            assert(all[k] == current);
        }
    } else if marker_at(text, i) {
        let rest = split_from(text, i + 8, Seq::empty());
        lemma_split_plain(text, i + 8, Seq::empty());
        assert(all =~= seq![current] + rest);
        assert forall|k: int| 0 <= k < all.len() implies is_plain(#[trigger] all[k]) by {
            if k > 0 {
                assert(all[k] == rest[k - 1]);
            } else {
                assert(all[k] == current);
            }
        }
    } else {
        let longer = current.push(text[i]);
        assert forall|j: int| 0 <= j < longer.len() implies ((#[trigger] longer[j]) as u32)
            < 0x7f by {
            if j < current.len() {
                assert(longer[j] == current[j]);
            } else {
                assert(longer[j] == text[i]);
            }
        }
        lemma_split_plain(text, i + 1, longer);
        let rest = split_from(text, i + 1, longer);
        assert(all == rest);
        assert forall|k: int| 0 <= k < all.len() implies is_plain(#[trigger] all[k]) by {
            assert(is_plain(rest[k]));
        }
    }
}

/// The character sequences held by a list of vectors.
pub open spec fn views(list: Seq<Vec<char>>) -> Seq<Seq<char>> {
    Seq::new(list.len(), |i: int| list[i]@)
}

fn stop_marker_at(text: &Vec<char>, i: usize) -> (found: bool)
    requires
        i < text.len(),
    ensures
        found == marker_at(text@, i as int),
{
    if text.len() - i < 8 {
        return false;
    }
    let found = text[i] == '<' && text[i + 1] == '<' && text[i + 2] == 'S' && text[i + 3] == 'T'
        && text[i + 4] == 'O' && text[i + 5] == 'P' && text[i + 6] == '>' && text[i + 7] == '>';
    proof {
        let piece = text@.subrange(i as int, i as int + 8);
        let marker = stop_marker();
        if found {
            assert(piece =~= marker);
        } else {
            if piece == marker {
                assert(piece[0] == marker[0]);
                assert(piece[1] == marker[1]);
                assert(piece[2] == marker[2]);
                assert(piece[3] == marker[3]);
                assert(piece[4] == marker[4]);
                assert(piece[5] == marker[5]);
                assert(piece[6] == marker[6]);
                assert(piece[7] == marker[7]);
            }
        }
    }
    found
}

/// Splits a text into its sentences.
pub fn sentences_of(text: &Vec<char>) -> (sentences: Vec<Vec<char>>)
    ensures
        views(sentences@) == split_sentences(text@),
{
    let mut sentences: Vec<Vec<char>> = Vec::new();
    let mut current: Vec<char> = Vec::new();
    let mut i: usize = 0;
    proof {
        assert(views(sentences@) =~= Seq::<Seq<char>>::empty());
        assert(views(sentences@) + split_from(text@, 0, current@) =~= split_from(
            text@,
            0,
            current@,
        ));
    }
    while i < text.len()
        invariant
            i <= text.len(),
            split_sentences(text@) == views(sentences@) + split_from(text@, i as int, current@),
        decreases text.len() - i,
    {
        if stop_marker_at(text, i) {
            let ghost before = sentences@;
            let ghost closed = current@;
            sentences.push(current);
            current = Vec::new();
            proof {
                assert(views(sentences@) =~= views(before) + seq![closed]);
                assert(current@ =~= Seq::<char>::empty());
                assert(views(before) + (seq![closed] + split_from(
                    text@,
                    i as int + 8,
                    Seq::empty(),
                )) =~= views(sentences@) + split_from(text@, i as int + 8, current@));
            }
            i = i + 8;
        } else {
            current.push(text[i]);
            i = i + 1;
        }
    }
    let ghost before = sentences@;
    let ghost closed = current@;
    sentences.push(current);
    proof {
        assert(views(sentences@) =~= views(before) + seq![closed]);
    }
    sentences
}

} // verus!
