//! The word list and the anagram list: the first word seen with a mask is a
//! word, every later one with that mask an anagram.

use crate::mask::{encode_word, is_valid_word, lemma_mask_bound, mask_of};
use crate::normalize::{normalize, normalized};
use vstd::prelude::*;

verus! {

/// A word as contracts see it: its letter mask and its text.
pub type WordModel = (usize, Seq<char>);

/// Some entry of the list has the given mask.
pub open spec fn has_mask(words: Seq<WordModel>, mask: usize) -> bool {
    exists|i: int| 0 <= i < words.len() && (#[trigger] words[i]).0 == mask
}

/// The two lists after one more normalized text has been seen. A text that is
/// no valid word changes nothing; a word whose mask is already known joins the
/// anagrams; any other word becomes the last entry of the word list.
pub open spec fn with_word(lists: (Seq<WordModel>, Seq<WordModel>), text: Seq<char>) -> (
    Seq<WordModel>,
    Seq<WordModel>,
) {
    if !is_valid_word(text) {
        lists
    } else if has_mask(lists.0, mask_of(text)) {
        (lists.0, lists.1.push((mask_of(text), text)))
    } else {
        (lists.0.push((mask_of(text), text)), lists.1)
    }
}

/// The word list and the anagram list of a sequence of normalized texts, seen
/// in order.
pub open spec fn encoded(texts: Seq<Seq<char>>) -> (Seq<WordModel>, Seq<WordModel>)
    decreases texts.len(),
{
    if texts.len() == 0 {
        (Seq::empty(), Seq::empty())
    } else {
        with_word(encoded(texts.drop_last()), texts.last())
    }
}

/// An entry holds a valid word and its mask, which lies within the 26 bits of
/// the alphabet.
pub open spec fn is_entry(entry: WordModel) -> bool {
    &&& is_valid_word(entry.1)
    &&& entry.0 == mask_of(entry.1)
    &&& entry.0 < 0x400_0000
}

/// Every entry is a valid word with its own mask, and no mask occurs twice.
pub open spec fn is_word_list(words: Seq<WordModel>) -> bool {
    &&& forall|i: int| 0 <= i < words.len() ==> is_entry(#[trigger] words[i])
    &&& forall|i: int, j: int|
        0 <= i < j < words.len() ==> (#[trigger] words[i]).0 != (#[trigger] words[j]).0
}

/// Every entry is a valid word with its own mask, and that mask is the mask
/// of some entry of the word list.
pub open spec fn is_anagram_list(anagrams: Seq<WordModel>, words: Seq<WordModel>) -> bool {
    forall|i: int|
        0 <= i < anagrams.len() ==> is_entry(#[trigger] anagrams[i]) && has_mask(
            words,
            anagrams[i].0,
        )
}

/// One more text keeps the two lists well formed.
pub proof fn lemma_with_word_well_formed(lists: (Seq<WordModel>, Seq<WordModel>), text: Seq<char>)
    requires
        is_word_list(lists.0),
        is_anagram_list(lists.1, lists.0),
    ensures
        is_word_list(with_word(lists, text).0),
        is_anagram_list(with_word(lists, text).1, with_word(lists, text).0),
{
    let next = with_word(lists, text);
    if is_valid_word(text) {
        lemma_mask_bound(text);
        if has_mask(lists.0, mask_of(text)) {
            assert forall|i: int| 0 <= i < next.1.len() implies is_entry(#[trigger] next.1[i])
                && has_mask(next.0, next.1[i].0) by {
                if i < lists.1.len() {
                    assert(next.1[i] == lists.1[i]);
                }
            }
        } else {
            assert forall|i: int| 0 <= i < next.1.len() implies is_entry(#[trigger] next.1[i])
                && has_mask(next.0, next.1[i].0) by {
                let k = choose|k: int| 0 <= k < lists.0.len() && (#[trigger] lists.0[k]).0
                    == lists.1[i].0;
                assert(next.0[k] == lists.0[k]);
            }
            assert forall|i: int| 0 <= i < next.0.len() implies is_entry(#[trigger] next.0[i]) by {
                if i < lists.0.len() {
                    assert(next.0[i] == lists.0[i]);
                }
            }
            assert forall|i: int, j: int| 0 <= i < j < next.0.len() implies (#[trigger] next.0[i]).0
                != (#[trigger] next.0[j]).0 by {
                assert(next.0[i] == lists.0[i]);
                if j < lists.0.len() {
                    assert(next.0[j] == lists.0[j]);
                }
            }
        }
    }
}

/// The lists of any sequence of texts are well formed: the words are valid
/// and unique by mask, and every anagram repeats the mask of a word.
pub proof fn lemma_encoded_well_formed(texts: Seq<Seq<char>>)
    ensures
        is_word_list(encoded(texts).0),
        is_anagram_list(encoded(texts).1, encoded(texts).0),
    decreases texts.len(),
{
    if texts.len() > 0 {
        lemma_encoded_well_formed(texts.drop_last());
        lemma_with_word_well_formed(encoded(texts.drop_last()), texts.last());
    }
}

/// Some valid text before position `end` has the given mask.
pub open spec fn seen_before(texts: Seq<Seq<char>>, end: int, mask: usize) -> bool {
    exists|j: int| 0 <= j < end && j < texts.len() && is_valid_word(#[trigger] texts[j]) && mask_of(
        texts[j],
    ) == mask
}

/// The word list knows a mask if and only if some valid text had it.
pub proof fn lemma_known_masks(texts: Seq<Seq<char>>, mask: usize)
    ensures
        has_mask(encoded(texts).0, mask) <==> seen_before(texts, texts.len() as int, mask),
    decreases texts.len(),
{
    if texts.len() > 0 {
        let head = texts.drop_last();
        let last = texts.last();
        let earlier = encoded(head).0;
        let words = encoded(texts).0;
        lemma_known_masks(head, mask);
        lemma_known_masks(head, mask_of(last));
        if has_mask(words, mask) {
            let i = choose|i: int| 0 <= i < words.len() && (#[trigger] words[i]).0 == mask;
            if i < earlier.len() {
                assert(earlier[i].0 == mask);
                let j = choose|j: int|
                    0 <= j < head.len() && is_valid_word(#[trigger] head[j]) && mask_of(head[j])
                        == mask;
                assert(texts[j] == head[j]);
            } else {
                assert(texts[texts.len() - 1] == last);
            }
        }
        if seen_before(texts, texts.len() as int, mask) {
            let j = choose|j: int|
                0 <= j < texts.len() && is_valid_word(#[trigger] texts[j]) && mask_of(texts[j])
                    == mask;
            if j < head.len() {
                assert(head[j] == texts[j]);
                let i = choose|i: int| 0 <= i < earlier.len() && (#[trigger] earlier[i]).0 == mask;
                assert(words[i] == earlier[i]);
            } else if has_mask(earlier, mask) {
                let i = choose|i: int| 0 <= i < earlier.len() && (#[trigger] earlier[i]).0 == mask;
                assert(words[i] == earlier[i]);
            } else {
                assert(words[earlier.len() as int].0 == mask);
            }
        }
    }
}

/// Every valid text is kept, with its mask: in the word list if no valid text
/// before it had that mask, in the anagram list otherwise.
pub proof fn lemma_first_seen_is_word(texts: Seq<Seq<char>>, i: int)
    requires
        0 <= i < texts.len(),
        is_valid_word(texts[i]),
    ensures
        !seen_before(texts, i, mask_of(texts[i])) ==> encoded(texts).0.contains(
            (mask_of(texts[i]), texts[i]),
        ),
        seen_before(texts, i, mask_of(texts[i])) ==> encoded(texts).1.contains(
            (mask_of(texts[i]), texts[i]),
        ),
    decreases texts.len(),
{
    let head = texts.drop_last();
    let before = encoded(head);
    let after = encoded(texts);
    let entry = (mask_of(texts[i]), texts[i]);
    if i < head.len() {
        assert(head[i] == texts[i]);
        lemma_first_seen_is_word(head, i);
        if seen_before(texts, i, entry.0) {
            let j = choose|j: int|
                0 <= j < i && j < texts.len() && is_valid_word(#[trigger] texts[j]) && mask_of(
                    texts[j],
                ) == entry.0;
            assert(head[j] == texts[j]);
            let k = choose|k: int| 0 <= k < before.1.len() && before.1[k] == entry;
            assert(after.1[k] == entry);
        } else {
            assert forall|j: int|
                0 <= j < i && j < head.len() && is_valid_word(#[trigger] head[j]) implies mask_of(
                head[j],
            ) != entry.0 by {
                assert(head[j] == texts[j]);
            }
            let k = choose|k: int| 0 <= k < before.0.len() && before.0[k] == entry;
            assert(after.0[k] == entry);
        }
    } else {
        lemma_known_masks(head, entry.0);
        if seen_before(texts, i, entry.0) {
            let j = choose|j: int|
                0 <= j < i && j < texts.len() && is_valid_word(#[trigger] texts[j]) && mask_of(
                    texts[j],
                ) == entry.0;
            assert(head[j] == texts[j]);
            assert(after.1[before.1.len() as int] == entry);
        } else {
            assert forall|j: int|
                0 <= j < head.len() && is_valid_word(#[trigger] head[j]) implies mask_of(head[j])
                != entry.0 by {
                assert(head[j] == texts[j]);
            }
            assert(after.0[before.0.len() as int] == entry);
        }
    }
}

/// Whether a word with this mask is in the list already.
pub fn contains_mask(full_list: &Vec<(usize, String)>, mask: usize) -> (found: bool)
    ensures
        found == has_mask(full_list.deep_view(), mask),
{
    let mut i: usize = 0;
    while i < full_list.len()
        invariant
            i <= full_list.len(),
            forall|k: int| 0 <= k < i ==> (#[trigger] full_list.deep_view()[k]).0 != mask,
        decreases full_list.len() - i,
    {
        if full_list[i].0 == mask {
            assert(full_list.deep_view()[i as int].0 == mask);
            return true;
        }
        i += 1;
    }
    false
}

/// Takes one normalized text into the lists: dropped if it is no valid word,
/// appended to the anagrams if its mask is known, else appended to the words.
pub fn add_candidate(
    full_list: &mut Vec<(usize, String)>,
    anagrams: &mut Vec<(usize, String)>,
    word: String,
)
    ensures
        (final(full_list).deep_view(), final(anagrams).deep_view()) == with_word(
            (old(full_list).deep_view(), old(anagrams).deep_view()),
            word@,
        ),
        is_word_list(old(full_list).deep_view()) && is_anagram_list(
            old(anagrams).deep_view(),
            old(full_list).deep_view(),
        ) ==> is_word_list(final(full_list).deep_view()) && is_anagram_list(
            final(anagrams).deep_view(),
            final(full_list).deep_view(),
        ),
{
    proof {
        if is_word_list(full_list.deep_view()) && is_anagram_list(
            anagrams.deep_view(),
            full_list.deep_view(),
        ) {
            lemma_with_word_well_formed((full_list.deep_view(), anagrams.deep_view()), word@);
        }
    }
    match encode_word(word.as_str()) {
        None => {},
        Some(word_code) => {
            if contains_mask(full_list, word_code) {
                anagrams.push((word_code, word));
                assert(anagrams.deep_view() == old(anagrams).deep_view().push((word_code, word@)));
            } else {
                full_list.push((word_code, word));
                assert(full_list.deep_view() == old(full_list).deep_view().push(
                    (word_code, word@),
                ));
            }
        },
    }
}

/// The normalized forms of raw lines, in order.
pub open spec fn normalized_lines(lines: Seq<Seq<char>>) -> Seq<Seq<char>> {
    Seq::new(lines.len(), |i: int| normalized(lines[i]))
}

/// Builds the word list and the anagram list from raw lines. Each line is
/// normalized; what is then no valid word is skipped; the first word with a
/// mask enters the word list, later words with that mask the anagram list.
pub fn load_words(lines: &Vec<String>) -> (lists: (Vec<(usize, String)>, Vec<(usize, String)>))
    ensures
        (lists.0.deep_view(), lists.1.deep_view()) == encoded(
            normalized_lines(lines.deep_view()),
        ),
        is_word_list(lists.0.deep_view()),
        is_anagram_list(lists.1.deep_view(), lists.0.deep_view()),
{
    let mut full_list: Vec<(usize, String)> = Vec::with_capacity(6000);
    let mut anagrams: Vec<(usize, String)> = Vec::with_capacity(4000);
    let ghost texts = normalized_lines(lines.deep_view());
    assert(full_list.deep_view() == Seq::<WordModel>::empty());
    assert(anagrams.deep_view() == Seq::<WordModel>::empty());
    let mut n: usize = 0;
    while n < lines.len()
        invariant
            n <= lines.len(),
            texts == normalized_lines(lines.deep_view()),
            (full_list.deep_view(), anagrams.deep_view()) == encoded(texts.take(n as int)),
        decreases lines.len() - n,
    {
        let trim_word = normalize(lines[n].as_str());
        proof {
            let seen = texts.take(n + 1);
            assert(seen.drop_last() == texts.take(n as int));
            assert(seen.last() == trim_word@);
        }
        add_candidate(&mut full_list, &mut anagrams, trim_word);
        n += 1;
    }
    proof {
        assert(texts.take(lines.len() as int) == texts);
        lemma_encoded_well_formed(texts);
    }
    (full_list, anagrams)
}

} // verus!
