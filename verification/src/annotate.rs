//! Annotation of a solution: the anagrams of its five words.

use crate::search::Solution;
use crate::words::WordModel;
use vstd::prelude::*;

verus! {

/// The mask is that of one of the five words of the solution.
pub open spec fn uses_mask(words: Seq<WordModel>, solution: Solution, mask: usize) -> bool {
    ||| mask == words[solution.0 as int].0
    ||| mask == words[solution.1 as int].0
    ||| mask == words[solution.2 as int].0
    ||| mask == words[solution.3 as int].0
    ||| mask == words[solution.4 as int].0
}

/// The test that picks the anagrams of the five words of a solution.
pub open spec fn spells_a_word_of(words: Seq<WordModel>, solution: Solution) -> spec_fn(
    WordModel,
) -> bool {
    |entry: WordModel| uses_mask(words, solution, entry.0)
}

/// The anagrams whose mask is that of a word of the solution, in the order
/// of the anagram list.
pub open spec fn annotation(
    words: Seq<WordModel>,
    anagrams: Seq<WordModel>,
    solution: Solution,
) -> Seq<WordModel> {
    anagrams.filter(spells_a_word_of(words, solution))
}

/// Lists the anagram spellings of a solution: every entry of the anagram list
/// whose mask equals the mask of one of the five words, with that mask, in the
/// order of the anagram list.
pub fn anagrams_of(
    full_list: &Vec<(usize, String)>,
    anagrams: &Vec<(usize, String)>,
    solution: Solution,
) -> (spellings: Vec<(usize, String)>)
    requires
        solution.0 < full_list.len(),
        solution.1 < full_list.len(),
        solution.2 < full_list.len(),
        solution.3 < full_list.len(),
        solution.4 < full_list.len(),
    ensures
        spellings.deep_view() == annotation(full_list.deep_view(), anagrams.deep_view(), solution),
        forall|n: int|
            0 <= n < anagrams.len() && uses_mask(
                full_list.deep_view(),
                solution,
                (#[trigger] anagrams.deep_view()[n]).0,
            ) ==> spellings.deep_view().contains(anagrams.deep_view()[n]),
{
    let ghost words = full_list.deep_view();
    let ghost all = anagrams.deep_view();
    let ghost keep = spells_a_word_of(words, solution);
    let (a, b, c, d, e) = solution;
    let mut spellings: Vec<(usize, String)> = Vec::new();
    assert(all.take(0).filter(keep) == Seq::<WordModel>::empty()) by {
        reveal(Seq::filter);
    }
    assert(spellings.deep_view() == Seq::<WordModel>::empty());
    let mut n: usize = 0;
    while n < anagrams.len()
        invariant
            n <= anagrams.len(),
            a == solution.0 && b == solution.1 && c == solution.2 && d == solution.3 && e
                == solution.4,
            a < full_list.len() && b < full_list.len() && c < full_list.len() && d < full_list.len()
                && e < full_list.len(),
            words == full_list.deep_view(),
            all == anagrams.deep_view(),
            keep == spells_a_word_of(words, solution),
            spellings.deep_view() == all.take(n as int).filter(keep),
            forall|m: int|
                0 <= m < n && uses_mask(words, solution, (#[trigger] all[m]).0)
                    ==> spellings.deep_view().contains(all[m]),
        decreases anagrams.len() - n,
    {
        let ghost earlier = spellings.deep_view();
        proof {
            assert(all.take(n + 1) == all.take(n as int).push(all[n as int]));
            all.take(n as int).lemma_filter_push(all[n as int], keep);
        }
        let code = anagrams[n].0;
        if code == full_list[a].0 || code == full_list[b].0 || code == full_list[c].0 || code
            == full_list[d].0 || code == full_list[e].0 {
            spellings.push((code, anagrams[n].1.clone()));
            proof {
                let later = spellings.deep_view();
                assert(later == earlier.push(all[n as int]));
                assert forall|m: int|
                    0 <= m < n + 1 && uses_mask(
                        words,
                        solution,
                        (#[trigger] all[m]).0,
                    ) implies later.contains(all[m]) by {
                    if m < n {
                        let k = choose|k: int| 0 <= k < earlier.len() && earlier[k] == all[m];
                        assert(later[k] == all[m]);
                    } else {
                        assert(later[earlier.len() as int] == all[m]);
                    }
                }
            }
        }
        n += 1;
    }
    assert(all.take(anagrams.len() as int) == all);
    spellings
}

} // verus!
