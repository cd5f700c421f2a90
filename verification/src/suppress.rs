//! Greedy suppression of overlapping candidates.

use vstd::prelude::*;

use crate::ranking::rank_descending;
use crate::scalar::Scalar;

verus! {

/// `overlap` may give an overlap for the two items that lies above the threshold (`over`),
/// or one that does not.
pub open spec fn may_overlap<T, F: Fn(&T, &T) -> Scalar>(
    overlap: F,
    threshold: Scalar,
    item: T,
    kept: T,
    over: bool,
) -> bool {
    exists|value: Scalar|
        #[trigger] overlap.ensures((&item, &kept), value) && threshold.below(value) == over
}

/// The item at `i` overlaps one of the chosen items before it.
pub open spec fn suppressed<T, F: Fn(&T, &T) -> Scalar>(
    items: Seq<T>,
    overlap: F,
    threshold: Scalar,
    chosen: Seq<usize>,
    i: int,
) -> bool {
    exists|k: int|
        0 <= k < chosen.len() && #[trigger] chosen[k] < i && may_overlap(
            overlap,
            threshold,
            items[i],
            items[chosen[k] as int],
            true,
        )
}

/// The item at `i` is chosen, or suppressed by a chosen one.
pub open spec fn settled<T, F: Fn(&T, &T) -> Scalar>(
    items: Seq<T>,
    overlap: F,
    threshold: Scalar,
    chosen: Seq<usize>,
    i: int,
) -> bool {
    chosen.contains(i as usize) || suppressed(items, overlap, threshold, chosen, i)
}

/// The chosen items among the first `n`: in order, none overlapping an earlier one, and
/// every other of the first `n` suppressed by one of them.
pub open spec fn chosen_among<T, F: Fn(&T, &T) -> Scalar>(
    items: Seq<T>,
    overlap: F,
    threshold: Scalar,
    chosen: Seq<usize>,
    n: int,
) -> bool {
    &&& forall|k: int| 0 <= k < chosen.len() ==> #[trigger] chosen[k] < n
    &&& forall|a: int, b: int|
        0 <= a < b < chosen.len() ==> #[trigger] chosen[a] < #[trigger] chosen[b] && may_overlap(
            overlap,
            threshold,
            items[chosen[b] as int],
            items[chosen[a] as int],
            false,
        )
    &&& forall|i: int|
        0 <= i < n ==> #[trigger] settled(items, overlap, threshold, chosen, i)
}

/// What greedy suppression chooses: items are taken in order until the limit is reached or
/// none is left.
pub open spec fn is_selection<T, F: Fn(&T, &T) -> Scalar>(
    items: Seq<T>,
    overlap: F,
    threshold: Scalar,
    limit: int,
    chosen: Seq<usize>,
) -> bool {
    if chosen.len() < limit {
        chosen_among(items, overlap, threshold, chosen, items.len() as int)
    } else {
        &&& chosen.len() == limit
        &&& limit > 0 ==> chosen.last() < items.len() && chosen_among(
            items,
            overlap,
            threshold,
            chosen,
            chosen.last() + 1,
        )
    }
}

/// Choose items in order, leaving out those that overlap a chosen one by more than the
/// threshold, until the limit is reached. With a limit of zero none is chosen.
pub fn suppress_overlaps<T, F: Fn(&T, &T) -> Scalar>(
    items: &Vec<T>,
    limit: usize,
    threshold: Scalar,
    overlap: &F,
) -> (r: Vec<usize>)
    requires
        forall|a: &T, b: &T| overlap.requires((a, b)),
    ensures
        is_selection(items@, *overlap, threshold, limit as int, r@),
{
    let mut chosen: Vec<usize> = Vec::new();
    if limit == 0 {
        return chosen;
    }
    let mut i: usize = 0;
    while i < items.len()
        invariant
            i <= items.len(),
            forall|a: &T, b: &T| overlap.requires((a, b)),
            chosen@.len() < limit,
            chosen_among(items@, *overlap, threshold, chosen@, i as int),
        decreases items.len() - i,
    {
        let mut clear: bool = true;
        let mut k: usize = 0;
        while k < chosen.len() && clear
            invariant
                i < items.len(),
                k <= chosen.len(),
                forall|a: &T, b: &T| overlap.requires((a, b)),
                chosen_among(items@, *overlap, threshold, chosen@, i as int),
                clear ==> forall|j: int|
                    0 <= j < k ==> may_overlap(
                        *overlap,
                        threshold,
                        items@[i as int],
                        items@[#[trigger] chosen@[j] as int],
                        false,
                    ),
                !clear ==> suppressed(items@, *overlap, threshold, chosen@, i as int),
            decreases chosen.len() - k,
        {
            let at: usize = chosen[k];
            assert(chosen@[k as int] < i);
            let value = overlap(&items[i], &items[at]);
            let over: bool = threshold.less_than(value);
            assert(may_overlap(
                *overlap,
                threshold,
                items@[i as int],
                items@[chosen@[k as int] as int],
                over,
            ));
            if over {
                clear = false;
            }
            k = k + 1;
        }
        let ghost before = chosen@;
        if clear {
            chosen.push(i);
            proof {
                lemma_one_more(items@, *overlap, threshold, before, chosen@, i as int);
            }
            if chosen.len() >= limit {
                return chosen;
            }
        }
        proof {
            if !clear {
                assert(settled(items@, *overlap, threshold, chosen@, i as int));
            }
        }
        i = i + 1;
    }
    chosen
}

/// One more item is chosen.
proof fn lemma_one_more<T, F: Fn(&T, &T) -> Scalar>(
    items: Seq<T>,
    overlap: F,
    threshold: Scalar,
    before: Seq<usize>,
    after: Seq<usize>,
    i: int,
)
    requires
        0 <= i < items.len() <= usize::MAX,
        after == before.push(i as usize),
        chosen_among(items, overlap, threshold, before, i),
        forall|j: int|
            0 <= j < before.len() ==> may_overlap(
                overlap,
                threshold,
                items[i],
                items[#[trigger] before[j] as int],
                false,
            ),
    ensures
        chosen_among(items, overlap, threshold, after, i + 1),
{
    assert forall|a: int, b: int| 0 <= a < b < after.len() implies #[trigger] after[a]
        < #[trigger] after[b] && may_overlap(
        overlap,
        threshold,
        items[after[b] as int],
        items[after[a] as int],
        false,
    ) by {
        assert(after[a] == before[a]);
        if b < before.len() {
            assert(after[b] == before[b]);
        }
    }
    assert forall|j: int| 0 <= j < i + 1 implies #[trigger] settled(
        items,
        overlap,
        threshold,
        after,
        j,
    ) by {
        assert(after[before.len() as int] == i as usize);
        if j < i {
            assert(settled(items, overlap, threshold, before, j));
            if before.contains(j as usize) {
                let k = choose|k: int| 0 <= k < before.len() && before[k] == j as usize;
                assert(after[k] == j as usize);
            } else {
                let k = choose|k: int|
                    0 <= k < before.len() && #[trigger] before[k] < j && may_overlap(
                        overlap,
                        threshold,
                        items[j],
                        items[before[k] as int],
                        true,
                    );
                assert(after[k] == before[k]);
            }
        }
    }
}

/// The places of the scores by descending total order; ties keep their input order.
pub open spec fn score_keys(scores: Seq<Scalar>) -> Seq<i64> {
    Seq::new(scores.len(), |i: int| scores[i].total_order() as i64)
}

/// The places of the scores, the highest first; ties keep their input order.
pub fn rank_scores(scores: &Vec<Scalar>) -> (r: Vec<usize>)
    ensures
        crate::ranking::is_ranking(r@, score_keys(scores@), scores@.len() as int),
{
    let mut keys: Vec<i64> = Vec::new();
    let mut i: usize = 0;
    while i < scores.len()
        invariant
            i <= scores.len(),
            keys@ == score_keys(scores@).take(i as int),
        decreases scores.len() - i,
    {
        keys.push(scores[i].total_key());
        assert(keys@ =~= score_keys(scores@).take(i + 1));
        i = i + 1;
    }
    assert(keys@ =~= score_keys(scores@));
    rank_descending(&keys)
}

/// The chosen items keep their order, and there are no more of them than the limit allows.
/// None overlaps an earlier one by more than the threshold. Where the limit was not reached,
/// every item that was left out overlaps a chosen one before it.
pub proof fn law_selection_keeps_the_best<T, F: Fn(&T, &T) -> Scalar>(
    items: Seq<T>,
    overlap: F,
    threshold: Scalar,
    limit: int,
    chosen: Seq<usize>,
)
    requires
        is_selection(items, overlap, threshold, limit, chosen),
        items.len() <= usize::MAX,
        0 <= limit,
    ensures
        chosen.len() <= limit,
        forall|k: int| 0 <= k < chosen.len() ==> #[trigger] chosen[k] < items.len(),
        forall|a: int, b: int|
            0 <= a < b < chosen.len() ==> #[trigger] chosen[a] < #[trigger] chosen[b]
                && may_overlap(
                overlap,
                threshold,
                items[chosen[b] as int],
                items[chosen[a] as int],
                false,
            ),
        chosen.len() < limit ==> forall|i: int|
            0 <= i < items.len() && !chosen.contains(i as usize) ==> #[trigger] suppressed(
                items,
                overlap,
                threshold,
                chosen,
                i,
            ),
{
    if chosen.len() < limit {
        assert forall|i: int|
            0 <= i < items.len() && !chosen.contains(i as usize) implies #[trigger] suppressed(
            items,
            overlap,
            threshold,
            chosen,
            i,
        ) by {
            assert(settled(items, overlap, threshold, chosen, i));
        }
    }
}

/// The first item is chosen, whatever follows it, unless the limit is zero.
pub proof fn law_first_item_is_chosen<T, F: Fn(&T, &T) -> Scalar>(
    items: Seq<T>,
    overlap: F,
    threshold: Scalar,
    limit: int,
    chosen: Seq<usize>,
)
    requires
        is_selection(items, overlap, threshold, limit, chosen),
        0 < items.len() <= usize::MAX,
        0 < limit,
    ensures
        chosen.len() > 0 && chosen[0] == 0,
{
    assert(settled(items, overlap, threshold, chosen, 0));
    assert(chosen.contains(0));
    let k = choose|k: int| 0 <= k < chosen.len() && chosen[k] == 0;
    if k > 0 {
        assert(chosen[0] < chosen[k]);
    }
}

/// The place of a score comes before that of a lower one, and equal scores keep their order.
pub proof fn law_higher_scores_come_first(
    scores: Seq<Scalar>,
    order: Seq<usize>,
    i: int,
    j: int,
)
    requires
        crate::ranking::is_ranking(order, score_keys(scores), scores.len() as int),
        0 <= i < j < scores.len(),
    ensures
        order[i] < scores.len(),
        order[j] < scores.len(),
        !scores[order[i] as int].below(scores[order[j] as int]),
        scores[order[i] as int] == scores[order[j] as int] ==> order[i] < order[j],
{
    crate::ranking::law_higher_keys_come_first(order, score_keys(scores), i, j);
}

/// Of two chosen items the overlap that `overlap` gave does not lie above the threshold. An
/// item that was left out, while the limit was not reached, overlaps a chosen one before it
/// by more than the threshold. No more items are chosen than the limit says.
pub proof fn law_chosen_items_do_not_overlap<T, F: Fn(&T, &T) -> Scalar>(
    items: Seq<T>,
    overlap: F,
    threshold: Scalar,
    limit: int,
    chosen: Seq<usize>,
    a: int,
    b: int,
    i: int,
)
    requires
        is_selection(items, overlap, threshold, limit, chosen),
        items.len() <= usize::MAX,
        0 <= limit,
    ensures
        chosen.len() <= limit,
        0 <= a < b < chosen.len() ==> chosen[a] < chosen[b] < items.len() && exists|value: Scalar|
            #[trigger] overlap.ensures(
                (&items[chosen[b] as int], &items[chosen[a] as int]),
                value,
            ) && !threshold.below(value),
        0 <= i < items.len() && !chosen.contains(i as usize) && (chosen.len() < limit
            || chosen.len() > 0 && i < chosen.last()) ==> exists|k: int, value: Scalar|
            #![trigger overlap.ensures((&items[i], &items[chosen[k] as int]), value)]
            0 <= k < chosen.len() && chosen[k] < i && overlap.ensures(
                (&items[i], &items[chosen[k] as int]),
                value,
            ) && threshold.below(value),
{
    law_selection_keeps_the_best(items, overlap, threshold, limit, chosen);
    if 0 <= a < b < chosen.len() {
        assert(chosen[a] < chosen[b]);
        assert(may_overlap(
            overlap,
            threshold,
            items[chosen[b] as int],
            items[chosen[a] as int],
            false,
        ));
        let value = choose|value: Scalar|
            #[trigger] overlap.ensures(
                (&items[chosen[b] as int], &items[chosen[a] as int]),
                value,
            ) && threshold.below(value) == false;
        assert(overlap.ensures((&items[chosen[b] as int], &items[chosen[a] as int]), value));
    }
    if 0 <= i < items.len() && !chosen.contains(i as usize) && (chosen.len() < limit
        || chosen.len() > 0 && i < chosen.last()) {
        assert(settled(items, overlap, threshold, chosen, i));
        let k = choose|k: int|
            0 <= k < chosen.len() && #[trigger] chosen[k] < i && may_overlap(
                overlap,
                threshold,
                items[i],
                items[chosen[k] as int],
                true,
            );
        let value = choose|value: Scalar|
            #[trigger] overlap.ensures((&items[i], &items[chosen[k] as int]), value)
                && threshold.below(value) == true;
        assert(overlap.ensures((&items[i], &items[chosen[k] as int]), value));
    }
}

} // verus!
