//! Letter masks: one bit per letter of the alphabet.

use vstd::prelude::*;
use vstd::string::*;

verus! {

/// Number of letters in every word.
pub const WORD_LEN: usize = 5;

/// A lowercase ASCII letter.
pub open spec fn is_lower(c: char) -> bool {
    'a' <= c && c <= 'z'
}

/// Every character of the text is a lowercase ASCII letter.
pub open spec fn all_lower(text: Seq<char>) -> bool {
    forall|i: int| 0 <= i < text.len() ==> is_lower(#[trigger] text[i])
}

/// Position of a lowercase letter in the alphabet: `a` is 0, `z` is 25.
pub open spec fn letter_index(c: char) -> int {
    c as int - 'a' as int
}

/// The single-bit mask of a letter: bit `k` stands for the `k`-th letter.
pub open spec fn letter_bit(c: char) -> usize {
    1usize << (letter_index(c) as usize)
}

/// The letter mask of a text: the union of the bits of its letters.
pub open spec fn mask_of(text: Seq<char>) -> usize
    decreases text.len(),
{
    if text.len() == 0 {
        0
    } else {
        mask_of(text.drop_last()) | letter_bit(text.last())
    }
}

/// Number of one bits in the binary representation of `m`.
pub open spec fn popcount(m: usize) -> nat
    decreases m,
    via popcount_terminates
{
    if m == 0 {
        0
    } else {
        ((m & 1) + popcount(m >> 1)) as nat
    }
}

#[via_fn]
proof fn popcount_terminates(m: usize) {
    assert(m != 0 ==> (m >> 1) < m) by (bit_vector);
}

/// A candidate has the fixed length and holds lowercase ASCII letters only.
pub open spec fn is_candidate(text: Seq<char>) -> bool {
    text.len() == WORD_LEN && all_lower(text)
}

/// A valid word is a candidate whose mask has as many bits as the word has
/// letters.
pub open spec fn is_valid_word(text: Seq<char>) -> bool {
    is_candidate(text) && popcount(mask_of(text)) == WORD_LEN
}

/// Setting bit `k` raises the population count by one exactly when the bit
/// was clear before.
pub proof fn lemma_popcount_set_bit(m: usize, k: usize)
    requires
        k < 26,
    ensures
        popcount(m | (1usize << k)) == popcount(m) + (if m & (1usize << k) == 0 {
            1nat
        } else {
            0nat
        }),
    decreases k,
{
    let bit = 1usize << k;
    let set = m | bit;
    assert(m == 0 ==> m & 1 == 0 && m >> 1 == 0) by (bit_vector);
    assert(m & 1 == 0 || m & 1 == 1) by (bit_vector);
    assert(popcount(m) == (m & 1) + popcount(m >> 1));
    assert(set != 0) by (bit_vector)
        requires
            set == m | bit,
            bit == 1usize << k,
            k < 26,
    ;
    if k == 0 {
        assert(set & 1 == 1 && set >> 1 == m >> 1 && (m & bit == 0 <==> m & 1 == 0))
            by (bit_vector)
            requires
                set == m | bit,
                bit == 1usize << k,
                k == 0,
        ;
    } else {
        let lower = (k - 1) as usize;
        let half = 1usize << lower;
        assert(set & 1 == m & 1 && set >> 1 == (m >> 1) | half && (m & bit == 0 <==> (m >> 1)
            & half == 0)) by (bit_vector)
            requires
                set == m | bit,
                bit == 1usize << k,
                half == 1usize << lower,
                lower == k - 1,
                0 < k < 26,
        ;
        lemma_popcount_set_bit(m >> 1, lower);
    }
}

/// Every letter has a bit among the low 26, and two letters have the same bit
/// only if they are the same letter.
proof fn lemma_letter_bits(c: char, d: char)
    requires
        is_lower(c),
        is_lower(d),
    ensures
        letter_bit(c) != 0,
        letter_bit(c) < 0x400_0000,
        letter_bit(c) & letter_bit(d) != 0 <==> c == d,
{
    let i = letter_index(c) as usize;
    let j = letter_index(d) as usize;
    assert((1usize << i) != 0 && (1usize << i) < 0x400_0000 && (((1usize << i) & (1usize << j))
        != 0 <==> i == j)) by (bit_vector)
        requires
            i < 26,
            j < 26,
    ;
}

/// The mask of lowercase text uses the low 26 bits only.
pub proof fn lemma_mask_bound(text: Seq<char>)
    requires
        all_lower(text),
    ensures
        mask_of(text) < 0x400_0000,
    decreases text.len(),
{
    if text.len() > 0 {
        lemma_mask_bound(text.drop_last());
        lemma_letter_bits(text.last(), text.last());
        let m = mask_of(text.drop_last());
        let b = letter_bit(text.last());
        assert(m | b < 0x400_0000) by (bit_vector)
            requires
                m < 0x400_0000,
                b < 0x400_0000,
        ;
    }
}

/// The bit of a letter is set in a mask if and only if the text contains the
/// letter.
pub proof fn lemma_mask_has_letter(text: Seq<char>, c: char)
    requires
        all_lower(text),
        is_lower(c),
    ensures
        mask_of(text) & letter_bit(c) != 0 <==> text.contains(c),
    decreases text.len(),
{
    let b = letter_bit(c);
    if text.len() == 0 {
        assert(0usize & b == 0) by (bit_vector);
    } else {
        let head = text.drop_last();
        let m = mask_of(head);
        let l = letter_bit(text.last());
        lemma_mask_has_letter(head, c);
        lemma_letter_bits(text.last(), c);
        assert((m | l) & b != 0 <==> (m & b != 0 || l & b != 0)) by (bit_vector);
        if head.contains(c) {
            let i = choose|i: int| 0 <= i < head.len() && head[i] == c;
            assert(text[i] == c);
        }
        if text.contains(c) && text.last() != c {
            let i = choose|i: int| 0 <= i < text.len() && text[i] == c;
            assert(head[i] == c);
        }
    }
}

/// The population count of a mask never exceeds the length of its text, and
/// reaches it if and only if no letter occurs twice.
pub proof fn lemma_popcount_counts_distinct(text: Seq<char>)
    requires
        all_lower(text),
    ensures
        popcount(mask_of(text)) <= text.len(),
        popcount(mask_of(text)) == text.len() <==> text.no_duplicates(),
    decreases text.len(),
{
    if text.len() > 0 {
        let head = text.drop_last();
        let last = text.last();
        lemma_popcount_counts_distinct(head);
        lemma_mask_has_letter(head, last);
        lemma_popcount_set_bit(mask_of(head), letter_index(last) as usize);
        if text.no_duplicates() {
            assert forall|i: int, j: int| 0 <= i < j < head.len() implies head[i] != head[j] by {
                assert(text[i] != text[j]);
            }
            if head.contains(last) {
                let i = choose|i: int| 0 <= i < head.len() && head[i] == last;
                assert(text[i] == text[text.len() - 1]);
            }
        }
        if head.no_duplicates() && !head.contains(last) {
            assert forall|i: int, j: int| 0 <= i < text.len() && 0 <= j < text.len() && i
                != j implies text[i] != text[j] by {
                if i < head.len() {
                    assert(head[i] == text[i]);
                }
                if j < head.len() {
                    assert(head[j] == text[j]);
                }
            }
        }
    }
}

/// A candidate is a valid word if and only if its five letters are distinct.
pub proof fn lemma_valid_iff_distinct(text: Seq<char>)
    requires
        is_candidate(text),
    ensures
        is_valid_word(text) <==> text.no_duplicates(),
{
    lemma_popcount_counts_distinct(text);
}

/// Two masks are disjoint if and only if their texts share no letter.
pub proof fn lemma_disjoint_iff_no_shared_letter(first: Seq<char>, second: Seq<char>)
    requires
        all_lower(first),
        all_lower(second),
    ensures
        mask_of(first) & mask_of(second) == 0 <==> forall|i: int, j: int|
            0 <= i < first.len() && 0 <= j < second.len() ==> first[i] != second[j],
    decreases first.len(),
{
    let other = mask_of(second);
    if first.len() == 0 {
        assert(0usize & other == 0) by (bit_vector);
    } else {
        let head = first.drop_last();
        let last = first.last();
        let m = mask_of(head);
        let l = letter_bit(last);
        lemma_disjoint_iff_no_shared_letter(head, second);
        lemma_mask_has_letter(second, last);
        assert((m | l) & other == 0 <==> (m & other == 0 && other & l == 0)) by (bit_vector);
        let apart = |a: Seq<char>| forall|i: int, j: int|
            0 <= i < a.len() && 0 <= j < second.len() ==> a[i] != second[j];
        if apart(first) {
            assert forall|i: int, j: int| 0 <= i < head.len() && 0 <= j < second.len() implies head[i]
                != second[j] by {
                assert(first[i] != second[j]);
            }
            if second.contains(last) {
                let j = choose|j: int| 0 <= j < second.len() && second[j] == last;
                assert(first[first.len() - 1] != second[j]);
            }
        }
        if apart(head) && !second.contains(last) {
            assert forall|i: int, j: int| 0 <= i < first.len() && 0 <= j < second.len() implies first[i]
                != second[j] by {
                if i < head.len() {
                    assert(head[i] == first[i]);
                }
            }
        }
    }
}

/// `usize::count_ones`: the number of one bits in the binary representation
/// of `m`.
#[verifier::external_body]
fn count_ones(m: usize) -> (n: u32)
    ensures
        n == popcount(m),
{
    m.count_ones()
}

/// Encodes a normalized text. The result is the letter mask if the text is a
/// valid word, and `None` if it has another length, holds anything but
/// lowercase ASCII letters, or repeats a letter.
pub fn encode_word(word: &str) -> (code: Option<usize>)
    ensures
        code is Some <==> is_valid_word(word@),
        code is Some ==> code->0 == mask_of(word@) && code->0 < 0x400_0000,
{
    broadcast use is_ascii_spec_bytes;

    let bytes = word.as_bytes();
    proof {
        if is_candidate(word@) {
            assert(is_ascii(word));
        }
    }
    if bytes.len() != WORD_LEN || !word.is_ascii() {
        return None;
    }
    let mut word_code: usize = 0;
    let mut i: usize = 0;
    while i < WORD_LEN
        invariant
            i <= WORD_LEN,
            word@.len() == WORD_LEN,
            bytes@.len() == WORD_LEN,
            is_ascii(word),
            forall|k: int| 0 <= k < WORD_LEN ==> bytes@[k] == word@[k] as u8,
            all_lower(word@.take(i as int)),
            word_code == mask_of(word@.take(i as int)),
        decreases WORD_LEN - i,
    {
        let c = bytes[i];
        if c < 'a' as u8 || c > 'z' as u8 {
            return None;
        }
        proof {
            let seen = word@.take(i as int);
            let next = word@.take(i + 1);
            assert(next.drop_last() == seen);
            assert(next.last() == word@[i as int]);
            assert(letter_index(word@[i as int]) == c - 'a' as u8);
        }
        word_code |= 1usize << (c - 'a' as u8);
        i += 1;
    }
    proof {
        assert(word@.take(WORD_LEN as int) == word@);
        lemma_mask_bound(word@);
    }
    if count_ones(word_code) as usize == WORD_LEN {
        Some(word_code)
    } else {
        None
    }
}

} // verus!
