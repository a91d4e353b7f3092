//! The combination search: every strictly increasing five-tuple of word
//! indices whose ten pairs are all allowed by the compatibility table.

use crate::mask::lemma_disjoint_iff_no_shared_letter;
use crate::table::{allowed_pair, compatibility_table, is_square, masks_of};
use crate::words::{is_word_list, WordModel};
use vstd::prelude::*;

verus! {

/// Five indices into the word list.
pub type Solution = (usize, usize, usize, usize, usize);

/// A position in the lexicographic order of five-tuples.
pub type Cursor = (int, int, int, int, int);

/// The tuple is strictly increasing and each of its ten pairs is allowed.
pub open spec fn is_solution(table: Seq<Seq<bool>>, t: Solution) -> bool {
    &&& allowed_pair(table, t.0 as int, t.1 as int)
    &&& allowed_pair(table, t.0 as int, t.2 as int)
    &&& allowed_pair(table, t.0 as int, t.3 as int)
    &&& allowed_pair(table, t.0 as int, t.4 as int)
    &&& allowed_pair(table, t.1 as int, t.2 as int)
    &&& allowed_pair(table, t.1 as int, t.3 as int)
    &&& allowed_pair(table, t.1 as int, t.4 as int)
    &&& allowed_pair(table, t.2 as int, t.3 as int)
    &&& allowed_pair(table, t.2 as int, t.4 as int)
    &&& allowed_pair(table, t.3 as int, t.4 as int)
}

/// The tuple comes before the cursor in lexicographic order.
pub open spec fn before(t: Solution, at: Cursor) -> bool {
    t.0 < at.0 || (t.0 == at.0 && (t.1 < at.1 || (t.1 == at.1 && (t.2 < at.2 || (t.2 == at.2 && (t.3
        < at.3 || (t.3 == at.3 && t.4 < at.4)))))))
}

/// The first tuple comes before the second in lexicographic order.
pub open spec fn precedes(s: Solution, t: Solution) -> bool {
    before(s, (t.0 as int, t.1 as int, t.2 as int, t.3 as int, t.4 as int))
}

/// The tuples stand in strictly ascending lexicographic order.
pub open spec fn ascending(found: Seq<Solution>) -> bool {
    forall|i: int, j: int| 0 <= i < j < found.len() ==> precedes(#[trigger] found[i], #[trigger] found[j])
}

/// The values stand in strictly increasing order.
pub open spec fn increasing(indices: Seq<usize>) -> bool {
    forall|i: int, j: int| 0 <= i < j < indices.len() ==> #[trigger] indices[i] < #[trigger] indices[j]
}

/// `found` lists, in ascending order, exactly the solutions that come before
/// the cursor.
spec fn found_up_to(table: Seq<Seq<bool>>, found: Seq<Solution>, at: Cursor) -> bool {
    &&& ascending(found)
    &&& forall|i: int|
        0 <= i < found.len() ==> is_solution(table, #[trigger] found[i]) && before(found[i], at)
    &&& forall|t: Solution| #[trigger] is_solution(table, t) && before(t, at) ==> found.contains(t)
}

/// The test that keeps an index as a candidate after `pivot` was chosen.
pub open spec fn follows(table: Seq<Seq<bool>>, pivot: int) -> spec_fn(usize) -> bool {
    |i: usize| allowed_pair(table, pivot, i as int)
}

/// The indices `0, 1, .. n - 1`.
pub open spec fn all_indices(n: nat) -> Seq<usize> {
    Seq::new(n, |i: int| i as usize)
}

/// A list in ascending order holds no tuple twice.
pub proof fn lemma_ascending_no_duplicates(found: Seq<Solution>)
    requires
        ascending(found),
    ensures
        found.no_duplicates(),
{
    assert forall|i: int, j: int| 0 <= i < found.len() && 0 <= j < found.len() && i != j implies found[i]
        != found[j] by {
        if i < j {
            assert(precedes(found[i], found[j]));
        } else {
            assert(precedes(found[j], found[i]));
        }
    }
}

/// The cursor may move over a stretch that holds no solution.
proof fn lemma_cursor_moves(table: Seq<Seq<bool>>, found: Seq<Solution>, from: Cursor, to: Cursor)
    requires
        found_up_to(table, found, from),
        forall|t: Solution| #[trigger] is_solution(table, t) ==> (before(t, from) <==> before(t, to)),
    ensures
        found_up_to(table, found, to),
{
}

/// One more solution may join the list when it is the only one between the
/// old cursor and the new.
proof fn lemma_found_push(
    table: Seq<Seq<bool>>,
    found: Seq<Solution>,
    next: Solution,
    from: Cursor,
    to: Cursor,
)
    requires
        found_up_to(table, found, from),
        is_solution(table, next),
        !before(next, from),
        before(next, to),
        forall|t: Solution| #[trigger]
            is_solution(table, t) && before(t, to) && !before(t, from) ==> t == next,
    ensures
        found_up_to(table, found.push(next), to),
{
    let longer = found.push(next);
    assert forall|i: int, j: int| 0 <= i < j < longer.len() implies precedes(
        #[trigger] longer[i],
        #[trigger] longer[j],
    ) by {
        assert(longer[i] == found[i]);
        if j < found.len() {
            assert(longer[j] == found[j]);
        }
    }
    assert forall|i: int| 0 <= i < longer.len() implies is_solution(table, #[trigger] longer[i])
        && before(longer[i], to) by {
        if i < found.len() {
            assert(longer[i] == found[i]);
        }
    }
    assert forall|t: Solution| #[trigger] is_solution(table, t) && before(t, to) implies longer.contains(
        t,
    ) by {
        if before(t, from) {
            let i = choose|i: int| 0 <= i < found.len() && found[i] == t;
            assert(longer[i] == t);
        } else {
            assert(longer[found.len() as int] == t);
        }
    }
}

/// Filtering keeps the order of an increasing list, and keeps exactly the
/// values that pass the test.
proof fn lemma_filter_increasing(source: Seq<usize>, keep: spec_fn(usize) -> bool)
    requires
        increasing(source),
    ensures
        increasing(source.filter(keep)),
        forall|x: usize| #[trigger] source.filter(keep).contains(x) <==> source.contains(x) && keep(x),
    decreases source.len(),
{
    reveal(Seq::filter);
    if source.len() > 0 {
        let head = source.drop_last();
        let last = source.last();
        lemma_filter_increasing(head, keep);
        let kept = head.filter(keep);
        let out = source.filter(keep);
        assert forall|x: usize| head.contains(x) implies x < last && source.contains(x) by {
            let i = choose|i: int| 0 <= i < head.len() && head[i] == x;
            assert(source[i] == x);
        }
        assert forall|x: usize| source.contains(x) implies head.contains(x) || x == last by {
            let i = choose|i: int| 0 <= i < source.len() && source[i] == x;
            if i < head.len() {
                assert(head[i] == x);
            }
        }
        assert(source.contains(last)) by {
            assert(source[source.len() - 1] == last);
        }
        if keep(last) {
            assert(out == kept.push(last));
            assert forall|i: int, j: int| 0 <= i < j < out.len() implies out[i] < out[j] by {
                assert(kept.contains(out[i])) by {
                    assert(kept[i] == out[i]);
                }
                if j < kept.len() {
                    assert(kept[j] == out[j]);
                }
            }
            assert forall|x: usize| #[trigger] out.contains(x) <==> source.contains(x) && keep(x) by {
                if out.contains(x) {
                    let i = choose|i: int| 0 <= i < out.len() && out[i] == x;
                    if i < kept.len() {
                        assert(kept[i] == x);
                    }
                }
                if kept.contains(x) {
                    let i = choose|i: int| 0 <= i < kept.len() && kept[i] == x;
                    assert(out[i] == x);
                }
                if x == last {
                    assert(out[out.len() - 1] == x);
                }
            }
        } else {
            assert(out == kept);
        }
    }
}

/// Narrows a candidate list after `pivot` was chosen: `out` receives, in
/// order, the candidates that may follow `pivot`.
pub fn narrow(candidates: &Vec<usize>, allowed: &Vec<Vec<bool>>, pivot: usize, out: &mut Vec<usize>)
    requires
        is_square(allowed.deep_view()),
        pivot < allowed.len(),
        forall|k: int| 0 <= k < candidates.len() ==> candidates[k] < allowed.len(),
    ensures
        final(out)@ == candidates@.filter(follows(allowed.deep_view(), pivot as int)),
        final(out)@.len() <= candidates@.len(),
        forall|x: usize| #[trigger]
            final(out)@.contains(x) ==> candidates@.contains(x) && allowed_pair(
                allowed.deep_view(),
                pivot as int,
                x as int,
            ),
        forall|x: usize|
            candidates@.contains(x) && #[trigger] allowed_pair(
                allowed.deep_view(),
                pivot as int,
                x as int,
            ) ==> final(out)@.contains(x),
        increasing(candidates@) ==> increasing(final(out)@),
{
    let ghost table = allowed.deep_view();
    let ghost keep = follows(table, pivot as int);
    out.clear();
    let allow = &allowed[pivot];
    assert(allow@ == table[pivot as int]);
    assert(candidates@.take(0).filter(keep) == Seq::<usize>::empty()) by {
        reveal(Seq::filter);
    }
    let mut k: usize = 0;
    while k < candidates.len()
        invariant
            k <= candidates.len(),
            table == allowed.deep_view(),
            keep == follows(table, pivot as int),
            is_square(table),
            pivot < table.len(),
            allow@ == table[pivot as int],
            forall|m: int| 0 <= m < candidates.len() ==> candidates[m] < table.len(),
            out@ == candidates@.take(k as int).filter(keep),
        decreases candidates.len() - k,
    {
        let i = candidates[k];
        proof {
            assert(candidates@.take(k + 1) == candidates@.take(k as int).push(i));
            candidates@.take(k as int).lemma_filter_push(i, keep);
        }
        if i > pivot && allow[i] {
            out.push(i);
        }
        k += 1;
    }
    proof {
        assert(candidates@.take(candidates.len() as int) == candidates@);
        candidates@.lemma_filter_len(keep);
        if increasing(candidates@) {
            lemma_filter_increasing(candidates@, keep);
        }
        broadcast use Seq::lemma_filter_contains_rev;

        assert forall|x: usize| #[trigger]
            out@.contains(x) implies candidates@.contains(x) && allowed_pair(
            table,
            pivot as int,
            x as int,
        ) by {
            let m = choose|m: int| 0 <= m < out@.len() && out@[m] == x;
            candidates@.lemma_filter_pred(keep, m);
        }
        assert forall|x: usize|
            candidates@.contains(x) && #[trigger] allowed_pair(
                table,
                pivot as int,
                x as int,
            ) implies out@.contains(x) by {
            let m = choose|m: int| 0 <= m < candidates@.len() && candidates@[m] == x;
            candidates@.lemma_filter_contains(keep, m);
        }
    }
}

/// Lists the candidates for the second place after `first` was chosen: `out`
/// receives, in increasing order, every index that may follow `first`.
pub fn candidates_after(allowed: &Vec<Vec<bool>>, first: usize, out: &mut Vec<usize>)
    requires
        is_square(allowed.deep_view()),
        first < allowed.len(),
    ensures
        final(out)@ == all_indices(allowed.len() as nat).filter(
            follows(allowed.deep_view(), first as int),
        ),
        increasing(final(out)@),
        forall|k: int| 0 <= k < final(out)@.len() ==> allowed_pair(
            allowed.deep_view(),
            first as int,
            #[trigger] final(out)@[k] as int,
        ),
        forall|x: usize| #[trigger]
            allowed_pair(allowed.deep_view(), first as int, x as int) ==> final(out)@.contains(x),
{
    let ghost table = allowed.deep_view();
    let ghost keep = follows(table, first as int);
    let ghost all = all_indices(allowed.len() as nat);
    out.clear();
    let allow_a = &allowed[first];
    assert(allow_a@ == table[first as int]);
    assert(all.take(0).filter(keep) == Seq::<usize>::empty()) by {
        reveal(Seq::filter);
    }
    let mut i: usize = 0;
    while i < allowed.len()
        invariant
            i <= allowed.len(),
            table == allowed.deep_view(),
            keep == follows(table, first as int),
            all == all_indices(allowed.len() as nat),
            is_square(table),
            first < table.len(),
            allow_a@ == table[first as int],
            out@ == all.take(i as int).filter(keep),
        decreases allowed.len() - i,
    {
        proof {
            assert(all.take(i + 1) == all.take(i as int).push(i));
            all.take(i as int).lemma_filter_push(i, keep);
        }
        if i > first && allow_a[i] {
            out.push(i);
        }
        i += 1;
    }
    proof {
        assert(all.take(allowed.len() as int) == all);
        lemma_filter_increasing(all, keep);
        assert forall|k: int| 0 <= k < out@.len() implies allowed_pair(
            table,
            first as int,
            #[trigger] out@[k] as int,
        ) by {
            all.lemma_filter_pred(keep, k);
        }
        assert forall|x: usize| #[trigger]
            allowed_pair(table, first as int, x as int) implies out@.contains(x) by {
            assert(all[x as int] == x);
            all.lemma_filter_contains(keep, x as int);
        }
    }
}

/// The value of the candidate at position `k`, or `limit` past the end.
spec fn front(candidates: Seq<usize>, k: int, limit: int) -> int {
    if k < candidates.len() {
        candidates[k] as int
    } else {
        limit
    }
}

/// The first three indices are pairwise allowed.
spec fn allowed_three(table: Seq<Seq<bool>>, a: int, b: int, c: int) -> bool {
    &&& allowed_pair(table, a, b)
    &&& allowed_pair(table, a, c)
    &&& allowed_pair(table, b, c)
}

/// The first four indices are pairwise allowed.
spec fn allowed_four(table: Seq<Seq<bool>>, a: int, b: int, c: int, d: int) -> bool {
    &&& allowed_three(table, a, b, c)
    &&& allowed_pair(table, a, d)
    &&& allowed_pair(table, b, d)
    &&& allowed_pair(table, c, d)
}

/// `cands` lists, in increasing order, exactly the indices that may follow
/// `a`.
spec fn second_candidates(table: Seq<Seq<bool>>, a: int, cands: Seq<usize>) -> bool {
    &&& increasing(cands)
    &&& forall|k: int| 0 <= k < cands.len() ==> allowed_pair(table, a, #[trigger] cands[k] as int)
    &&& forall|x: usize| #[trigger] allowed_pair(table, a, x as int) ==> cands.contains(x)
}

/// `cands` lists, in increasing order, exactly the indices that may follow
/// both `a` and `b`.
spec fn third_candidates(table: Seq<Seq<bool>>, a: int, b: int, cands: Seq<usize>) -> bool {
    &&& increasing(cands)
    &&& forall|k: int|
        0 <= k < cands.len() ==> allowed_pair(table, a, #[trigger] cands[k] as int) && allowed_pair(
            table,
            b,
            cands[k] as int,
        )
    &&& forall|x: usize|
        allowed_pair(table, a, x as int) && #[trigger] allowed_pair(table, b, x as int)
            ==> cands.contains(x)
}

/// `cands` lists, in increasing order, exactly the indices that may follow
/// each of `a`, `b` and `c`.
spec fn fourth_candidates(
    table: Seq<Seq<bool>>,
    a: int,
    b: int,
    c: int,
    cands: Seq<usize>,
) -> bool {
    &&& increasing(cands)
    &&& forall|k: int|
        0 <= k < cands.len() ==> allowed_pair(table, a, #[trigger] cands[k] as int) && allowed_pair(
            table,
            b,
            cands[k] as int,
        ) && allowed_pair(table, c, cands[k] as int)
    &&& forall|x: usize|
        allowed_pair(table, a, x as int) && allowed_pair(table, b, x as int)
            && #[trigger] allowed_pair(table, c, x as int) ==> cands.contains(x)
}

/// `cands` lists, in increasing order, exactly the indices that may follow
/// each of `a`, `b`, `c` and `d`.
spec fn fifth_candidates(
    table: Seq<Seq<bool>>,
    a: int,
    b: int,
    c: int,
    d: int,
    cands: Seq<usize>,
) -> bool {
    &&& increasing(cands)
    &&& forall|k: int|
        0 <= k < cands.len() ==> allowed_pair(table, a, #[trigger] cands[k] as int) && allowed_pair(
            table,
            b,
            cands[k] as int,
        ) && allowed_pair(table, c, cands[k] as int) && allowed_pair(table, d, cands[k] as int)
    &&& forall|x: usize|
        allowed_pair(table, a, x as int) && allowed_pair(table, b, x as int) && allowed_pair(
            table,
            c,
            x as int,
        ) && #[trigger] allowed_pair(table, d, x as int) ==> cands.contains(x)
}

/// Completes the chosen four with every candidate for the fifth place.
fn search_fifth(
    allowed: &Vec<Vec<bool>>,
    a: usize,
    b: usize,
    c: usize,
    d: usize,
    cand_abcd: &Vec<usize>,
    found: &mut Vec<Solution>,
)
    requires
        allowed_four(allowed.deep_view(), a as int, b as int, c as int, d as int),
        fifth_candidates(allowed.deep_view(), a as int, b as int, c as int, d as int, cand_abcd@),
        found_up_to(allowed.deep_view(), old(found)@, (a as int, b as int, c as int, d as int, 0)),
    ensures
        found_up_to(
            allowed.deep_view(),
            final(found)@,
            (a as int, b as int, c as int, d + 1, 0),
        ),
{
    let ghost table = allowed.deep_view();
    let ghost limit = table.len() as int;
    proof {
        lemma_cursor_moves(
            table,
            found@,
            (a as int, b as int, c as int, d as int, 0),
            (a as int, b as int, c as int, d as int, front(cand_abcd@, 0, limit)),
        );
    }
    let mut k: usize = 0;
    while k < cand_abcd.len()
        invariant
            k <= cand_abcd.len(),
            table == allowed.deep_view(),
            limit == table.len(),
            allowed_four(table, a as int, b as int, c as int, d as int),
            fifth_candidates(table, a as int, b as int, c as int, d as int, cand_abcd@),
            found_up_to(
                table,
                found@,
                (a as int, b as int, c as int, d as int, front(cand_abcd@, k as int, limit)),
            ),
        decreases cand_abcd.len() - k,
    {
        let e = cand_abcd[k];
        let ghost before_push = found@;
        found.push((a, b, c, d, e));
        proof {
            lemma_found_push(
                table,
                before_push,
                (a, b, c, d, e),
                (a as int, b as int, c as int, d as int, e as int),
                (a as int, b as int, c as int, d as int, front(cand_abcd@, k + 1, limit)),
            );
        }
        k += 1;
    }
    proof {
        lemma_cursor_moves(
            table,
            found@,
            (a as int, b as int, c as int, d as int, limit),
            (a as int, b as int, c as int, d + 1, 0),
        );
    }
}

/// Tries every candidate for the fourth place after the chosen three.
fn search_fourth(
    allowed: &Vec<Vec<bool>>,
    a: usize,
    b: usize,
    c: usize,
    cand_abc: &Vec<usize>,
    cand_abcd: &mut Vec<usize>,
    found: &mut Vec<Solution>,
)
    requires
        is_square(allowed.deep_view()),
        allowed_three(allowed.deep_view(), a as int, b as int, c as int),
        fourth_candidates(allowed.deep_view(), a as int, b as int, c as int, cand_abc@),
        found_up_to(allowed.deep_view(), old(found)@, (a as int, b as int, c as int, 0, 0)),
    ensures
        found_up_to(allowed.deep_view(), final(found)@, (a as int, b as int, c + 1, 0, 0)),
{
    let ghost table = allowed.deep_view();
    let ghost limit = table.len() as int;
    proof {
        lemma_cursor_moves(
            table,
            found@,
            (a as int, b as int, c as int, 0, 0),
            (a as int, b as int, c as int, front(cand_abc@, 0, limit), 0),
        );
    }
    let mut k: usize = 0;
    while k < cand_abc.len()
        invariant
            k <= cand_abc.len(),
            table == allowed.deep_view(),
            limit == table.len(),
            is_square(table),
            allowed_three(table, a as int, b as int, c as int),
            fourth_candidates(table, a as int, b as int, c as int, cand_abc@),
            found_up_to(
                table,
                found@,
                (a as int, b as int, c as int, front(cand_abc@, k as int, limit), 0),
            ),
        decreases cand_abc.len() - k,
    {
        let d = cand_abc[k];
        narrow(cand_abc, allowed, d, cand_abcd);
        proof {
            assert forall|m: int| 0 <= m < cand_abcd@.len() implies allowed_pair(
                table,
                a as int,
                #[trigger] cand_abcd@[m] as int,
            ) && allowed_pair(table, b as int, cand_abcd@[m] as int) && allowed_pair(
                table,
                c as int,
                cand_abcd@[m] as int,
            ) && allowed_pair(table, d as int, cand_abcd@[m] as int) by {
                let x = cand_abcd@[m];
                assert(cand_abcd@.contains(x));
                let i = choose|i: int| 0 <= i < cand_abc@.len() && cand_abc@[i] == x;
                assert(allowed_pair(table, a as int, cand_abc@[i] as int));
            }
        }
        search_fifth(allowed, a, b, c, d, cand_abcd, found);
        proof {
            lemma_cursor_moves(
                table,
                found@,
                (a as int, b as int, c as int, d + 1, 0),
                (a as int, b as int, c as int, front(cand_abc@, k + 1, limit), 0),
            );
        }
        k += 1;
    }
    proof {
        lemma_cursor_moves(
            table,
            found@,
            (a as int, b as int, c as int, limit, 0),
            (a as int, b as int, c + 1, 0, 0),
        );
    }
}

/// Tries every candidate for the third place after the chosen two.
fn search_third(
    allowed: &Vec<Vec<bool>>,
    a: usize,
    b: usize,
    cand_ab: &Vec<usize>,
    cand_abc: &mut Vec<usize>,
    cand_abcd: &mut Vec<usize>,
    found: &mut Vec<Solution>,
)
    requires
        is_square(allowed.deep_view()),
        allowed_pair(allowed.deep_view(), a as int, b as int),
        third_candidates(allowed.deep_view(), a as int, b as int, cand_ab@),
        found_up_to(allowed.deep_view(), old(found)@, (a as int, b as int, 0, 0, 0)),
    ensures
        found_up_to(allowed.deep_view(), final(found)@, (a as int, b + 1, 0, 0, 0)),
{
    let ghost table = allowed.deep_view();
    let ghost limit = table.len() as int;
    proof {
        lemma_cursor_moves(
            table,
            found@,
            (a as int, b as int, 0, 0, 0),
            (a as int, b as int, front(cand_ab@, 0, limit), 0, 0),
        );
    }
    let mut k: usize = 0;
    while k < cand_ab.len()
        invariant
            k <= cand_ab.len(),
            table == allowed.deep_view(),
            limit == table.len(),
            is_square(table),
            allowed_pair(table, a as int, b as int),
            third_candidates(table, a as int, b as int, cand_ab@),
            found_up_to(table, found@, (a as int, b as int, front(cand_ab@, k as int, limit), 0, 0)),
        decreases cand_ab.len() - k,
    {
        let c = cand_ab[k];
        narrow(cand_ab, allowed, c, cand_abc);
        proof {
            assert forall|m: int| 0 <= m < cand_abc@.len() implies allowed_pair(
                table,
                a as int,
                #[trigger] cand_abc@[m] as int,
            ) && allowed_pair(table, b as int, cand_abc@[m] as int) && allowed_pair(
                table,
                c as int,
                cand_abc@[m] as int,
            ) by {
                let x = cand_abc@[m];
                assert(cand_abc@.contains(x));
                let i = choose|i: int| 0 <= i < cand_ab@.len() && cand_ab@[i] == x;
                assert(allowed_pair(table, a as int, cand_ab@[i] as int));
            }
        }
        search_fourth(allowed, a, b, c, cand_abc, cand_abcd, found);
        proof {
            lemma_cursor_moves(
                table,
                found@,
                (a as int, b as int, c + 1, 0, 0),
                (a as int, b as int, front(cand_ab@, k + 1, limit), 0, 0),
            );
        }
        k += 1;
    }
    proof {
        lemma_cursor_moves(
            table,
            found@,
            (a as int, b as int, limit, 0, 0),
            (a as int, b + 1, 0, 0, 0),
        );
    }
}

/// Tries every candidate for the second place after the chosen first.
fn search_second(
    allowed: &Vec<Vec<bool>>,
    a: usize,
    cand_a: &Vec<usize>,
    cand_ab: &mut Vec<usize>,
    cand_abc: &mut Vec<usize>,
    cand_abcd: &mut Vec<usize>,
    found: &mut Vec<Solution>,
)
    requires
        is_square(allowed.deep_view()),
        a < allowed.len(),
        second_candidates(allowed.deep_view(), a as int, cand_a@),
        found_up_to(allowed.deep_view(), old(found)@, (a as int, 0, 0, 0, 0)),
    ensures
        found_up_to(allowed.deep_view(), final(found)@, (a + 1, 0, 0, 0, 0)),
{
    let ghost table = allowed.deep_view();
    let ghost limit = table.len() as int;
    proof {
        lemma_cursor_moves(
            table,
            found@,
            (a as int, 0, 0, 0, 0),
            (a as int, front(cand_a@, 0, limit), 0, 0, 0),
        );
    }
    let mut k: usize = 0;
    while k < cand_a.len()
        invariant
            k <= cand_a.len(),
            table == allowed.deep_view(),
            limit == table.len(),
            is_square(table),
            a < table.len(),
            second_candidates(table, a as int, cand_a@),
            found_up_to(table, found@, (a as int, front(cand_a@, k as int, limit), 0, 0, 0)),
        decreases cand_a.len() - k,
    {
        let b = cand_a[k];
        narrow(cand_a, allowed, b, cand_ab);
        proof {
            assert forall|m: int| 0 <= m < cand_ab@.len() implies allowed_pair(
                table,
                a as int,
                #[trigger] cand_ab@[m] as int,
            ) && allowed_pair(table, b as int, cand_ab@[m] as int) by {
                let x = cand_ab@[m];
                assert(cand_ab@.contains(x));
                let i = choose|i: int| 0 <= i < cand_a@.len() && cand_a@[i] == x;
                assert(allowed_pair(table, a as int, cand_a@[i] as int));
            }
        }
        search_third(allowed, a, b, cand_ab, cand_abc, cand_abcd, found);
        proof {
            lemma_cursor_moves(
                table,
                found@,
                (a as int, b + 1, 0, 0, 0),
                (a as int, front(cand_a@, k + 1, limit), 0, 0, 0),
            );
        }
        k += 1;
    }
    proof {
        lemma_cursor_moves(table, found@, (a as int, limit, 0, 0, 0), (a + 1, 0, 0, 0, 0));
    }
}

/// Finds every combination of five words that the table allows: all strictly
/// increasing five-tuples of indices whose ten pairs are allowed, each once,
/// in lexicographic order. A table of fewer than five words has none.
pub fn find_solutions(allowed: &Vec<Vec<bool>>) -> (found: Vec<Solution>)
    requires
        is_square(allowed.deep_view()),
    ensures
        forall|t: Solution| found@.contains(t) <==> is_solution(allowed.deep_view(), t),
        forall|i: int|
            0 <= i < found.len() ==> is_solution(allowed.deep_view(), #[trigger] found[i])
                && found[i].0 < found[i].1 < found[i].2 < found[i].3 < found[i].4 < allowed.len(),
        ascending(found@),
        found@.no_duplicates(),
        allowed.len() < 5 ==> found.len() == 0,
{
    let ghost table = allowed.deep_view();
    let mut found: Vec<Solution> = Vec::new();
    let mut cand_a: Vec<usize> = Vec::with_capacity(allowed.len());
    let mut cand_ab: Vec<usize> = Vec::with_capacity(allowed.len());
    let mut cand_abc: Vec<usize> = Vec::with_capacity(allowed.len());
    let mut cand_abcd: Vec<usize> = Vec::with_capacity(allowed.len());
    if allowed.len() < 5 {
        proof {
            lemma_ascending_no_duplicates(found@);
        }
        return found;
    }
    let mut a: usize = 0;
    while a < allowed.len() - 4
        invariant
            5 <= allowed.len(),
            a <= allowed.len() - 4,
            table == allowed.deep_view(),
            is_square(table),
            found_up_to(table, found@, (a as int, 0, 0, 0, 0)),
        decreases allowed.len() - a,
    {
        candidates_after(allowed, a, &mut cand_a);
        search_second(allowed, a, &cand_a, &mut cand_ab, &mut cand_abc, &mut cand_abcd, &mut found);
        a += 1;
    }
    proof {
        lemma_ascending_no_duplicates(found@);
    }
    found
}

/// The index is one of the five of the tuple.
pub open spec fn picks(t: Solution, i: int) -> bool {
    i == t.0 || i == t.1 || i == t.2 || i == t.3 || i == t.4
}

/// In the table of a list of masks, the solutions are exactly the strictly
/// increasing five-tuples of indices whose masks are disjoint two by two.
pub proof fn lemma_solution_iff_disjoint(masks: Seq<usize>, t: Solution)
    ensures
        is_solution(compatibility_table(masks), t) <==> {
            &&& t.0 < t.1 < t.2 < t.3 < t.4 < masks.len()
            &&& forall|i: int, j: int|
                #![trigger masks[i], masks[j]]
                picks(t, i) && picks(t, j) && i != j ==> masks[i] & masks[j] == 0
        },
{
    let table = compatibility_table(masks);
    assert forall|i: int, j: int| 0 <= i < masks.len() && 0 <= j < masks.len() implies (allowed_pair(
        table,
        i,
        j,
    ) <==> i < j && masks[i] & masks[j] == 0) && masks[i] & masks[j] == masks[j] & masks[i] by {
        let x = masks[i];
        let y = masks[j];
        assert(x & y == y & x) by (bit_vector);
    }
    if t.0 < t.1 < t.2 < t.3 < t.4 < masks.len() {
        if is_solution(table, t) {
            assert forall|i: int, j: int|
                #![trigger masks[i], masks[j]]
                picks(t, i) && picks(t, j) && i != j implies masks[i] & masks[j] == 0 by {
                assert(allowed_pair(table, i, j) || allowed_pair(table, j, i));
            }
        }
    }
}

/// No two words of a solution share a letter.
pub proof fn lemma_solution_shares_no_letter(words: Seq<WordModel>, t: Solution, i: int, j: int)
    requires
        is_word_list(words),
        is_solution(compatibility_table(masks_of(words)), t),
        picks(t, i),
        picks(t, j),
        i != j,
    ensures
        forall|p: int, q: int|
            0 <= p < words[i].1.len() && 0 <= q < words[j].1.len() ==> words[i].1[p] != words[j].1[q],
{
    let masks = masks_of(words);
    lemma_solution_iff_disjoint(masks, t);
    assert(masks[i] & masks[j] == 0);
    lemma_disjoint_iff_no_shared_letter(words[i].1, words[j].1);
}

} // verus!
