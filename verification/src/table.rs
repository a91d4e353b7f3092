//! The compatibility table: which word may follow which in a combination.

use crate::words::WordModel;
use vstd::prelude::*;

verus! {

/// The letter masks of a word list, in order.
pub open spec fn masks_of(words: Seq<WordModel>) -> Seq<usize> {
    Seq::new(words.len(), |i: int| words[i].0)
}

/// Word `j` may follow word `i`: it comes later in the list and shares no
/// letter with it.
pub open spec fn may_follow(masks: Seq<usize>, i: int, j: int) -> bool {
    i < j && masks[i] & masks[j] == 0
}

/// The square table of `may_follow` over all pairs of indices.
pub open spec fn compatibility_table(masks: Seq<usize>) -> Seq<Seq<bool>> {
    Seq::new(masks.len(), |i: int| Seq::new(masks.len(), |j: int| may_follow(masks, i, j)))
}

/// Every row of the table is as long as the table has rows.
pub open spec fn is_square(table: Seq<Seq<bool>>) -> bool {
    forall|i: int| 0 <= i < table.len() ==> (#[trigger] table[i]).len() == table.len()
}

/// Index `j` may follow index `i`: both are in range, `i` comes first and the
/// table holds true at `(i, j)`.
pub open spec fn allowed_pair(table: Seq<Seq<bool>>, i: int, j: int) -> bool {
    0 <= i < j < table.len() && table[i][j]
}

/// Builds the table that says for every pair of words whether the second may
/// follow the first. Entry `(i, j)` is true if and only if `i < j` and the two
/// masks have no bit in common, so nothing on or below the diagonal is true.
pub fn build_allowed_table(full_list: &Vec<(usize, String)>) -> (allowed: Vec<Vec<bool>>)
    ensures
        allowed.deep_view() == compatibility_table(masks_of(full_list.deep_view())),
        is_square(allowed.deep_view()),
        allowed.len() == full_list.len(),
        forall|i: int| 0 <= i < allowed.len() ==> (#[trigger] allowed[i]).len() == full_list.len(),
        forall|i: int, j: int|
            0 <= i < full_list.len() && 0 <= j < full_list.len() ==> (#[trigger] allowed[i][j] <==> i
                < j && full_list[i].0 & full_list[j].0 == 0),
        forall|i: int, j: int| 0 <= j <= i < full_list.len() ==> !#[trigger] allowed[i][j],
{
    let ghost masks = masks_of(full_list.deep_view());
    let mut allowed: Vec<Vec<bool>> = Vec::with_capacity(full_list.len());
    let mut i: usize = 0;
    while i < full_list.len()
        invariant
            i <= full_list.len(),
            masks == masks_of(full_list.deep_view()),
            allowed.len() == i,
            forall|r: int| 0 <= r < i ==> (#[trigger] allowed[r]).len() == full_list.len(),
            forall|r: int, j: int|
                0 <= r < i && 0 <= j < full_list.len() ==> #[trigger] allowed[r][j] == may_follow(
                    masks,
                    r,
                    j,
                ),
        decreases full_list.len() - i,
    {
        let mut allow: Vec<bool> = Vec::with_capacity(full_list.len());
        let word_code = full_list[i].0;
        let mut j: usize = 0;
        while j < full_list.len()
            invariant
                i < full_list.len(),
                j <= full_list.len(),
                masks == masks_of(full_list.deep_view()),
                word_code == full_list[i as int].0,
                allow.len() == j,
                forall|k: int| 0 <= k < j ==> #[trigger] allow[k] == may_follow(masks, i as int, k),
            decreases full_list.len() - j,
        {
            allow.push(i < j && word_code & full_list[j].0 == 0);
            j += 1;
        }
        allowed.push(allow);
        i += 1;
    }
    assert(allowed.deep_view() =~~= compatibility_table(masks));
    allowed
}

} // verus!
