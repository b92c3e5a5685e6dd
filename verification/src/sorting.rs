//! Sorting items by an integer rank.
//!
//! An item is a triple of a rank, a single precision bit pattern and a count
//! or label. The sorted arrangement is described by insertion, which makes
//! it the one arrangement in ascending order of rank in which items of one
//! rank keep the order in which they came. A merge sort computes it.

use vstd::prelude::*;

verus! {

/// `sorted` with `item` put behind the last item whose rank is not larger.
pub open spec fn insert_by_rank(sorted: Seq<(i64, u32, usize)>, item: (i64, u32, usize)) -> Seq<
    (i64, u32, usize),
>
    decreases sorted.len(),
{
    if sorted.len() == 0 || sorted.last().0 <= item.0 {
        sorted.push(item)
    } else {
        insert_by_rank(sorted.drop_last(), item).push(sorted.last())
    }
}

/// The items in ascending order of their ranks, items of one rank in the
/// order in which they came.
pub open spec fn stable_sorted(items: Seq<(i64, u32, usize)>) -> Seq<(i64, u32, usize)>
    decreases items.len(),
{
    if items.len() == 0 {
        items
    } else {
        insert_by_rank(stable_sorted(items.drop_last()), items.last())
    }
}

/// Whether the ranks never fall from one item to the next.
pub open spec fn is_ascending(items: Seq<(i64, u32, usize)>) -> bool {
    forall|i: int, j: int| 0 <= i <= j < items.len() ==> items[i].0 <= items[j].0
}

/// Whether every item has a property.
pub open spec fn all_items(
    items: Seq<(i64, u32, usize)>,
    property: spec_fn((i64, u32, usize)) -> bool,
) -> bool {
    forall|i: int| 0 <= i < items.len() ==> property(#[trigger] items[i])
}

#[verifier::rlimit(40)]
proof fn lemma_inserted(
    sorted: Seq<(i64, u32, usize)>,
    item: (i64, u32, usize),
    property: spec_fn((i64, u32, usize)) -> bool,
)
    ensures
        insert_by_rank(sorted, item).len() == sorted.len() + 1,
        is_ascending(sorted) ==> is_ascending(insert_by_rank(sorted, item)),
        all_items(sorted, property) && property(item) ==> all_items(
            insert_by_rank(sorted, item),
            property,
        ),
        forall|i: int|
            0 <= i < sorted.len() + 1 ==> (#[trigger] insert_by_rank(sorted, item)[i]) == item || (
            exists|j: int| 0 <= j < sorted.len() && sorted[j] == insert_by_rank(sorted, item)[i]),
    decreases sorted.len(),
{
    let result = insert_by_rank(sorted, item);
    if sorted.len() == 0 || sorted.last().0 <= item.0 {
        assert forall|i: int| 0 <= i < sorted.len() + 1 implies (#[trigger] result[i]) == item || (
        exists|j: int| 0 <= j < sorted.len() && sorted[j] == result[i]) by {
            if i < sorted.len() {
                assert(sorted[i] == result[i]);
            }
        }
        if is_ascending(sorted) {
            assert forall|i: int, j: int| 0 <= i <= j < result.len() implies result[i].0
                <= result[j].0 by {
                if j < sorted.len() {
                    assert(sorted[i].0 <= sorted[j].0);
                } else if i < sorted.len() {
                    assert(sorted[i].0 <= sorted[sorted.len() - 1].0);
                }
            }
        }
    } else {
        let front = sorted.drop_last();
        let inner = insert_by_rank(front, item);
        lemma_inserted(front, item, property);
        assert(forall|i: int| 0 <= i < front.len() ==> front[i] == sorted[i]);
        assert forall|i: int| 0 <= i < sorted.len() + 1 implies (#[trigger] result[i]) == item || (
        exists|j: int| 0 <= j < sorted.len() && sorted[j] == result[i]) by {
            if i < inner.len() {
                assert(result[i] == inner[i]);
                if inner[i] != item {
                    let j = choose|j: int| 0 <= j < front.len() && front[j] == inner[i];
                    assert(sorted[j] == result[i]);
                }
            } else {
                assert(sorted[sorted.len() - 1] == result[i]);
            }
        }
        if all_items(sorted, property) && property(item) {
            assert(all_items(front, property));
            assert forall|i: int| 0 <= i < result.len() implies property(#[trigger] result[i]) by {
                if i < inner.len() {
                    assert(result[i] == inner[i]);
                } else {
                    assert(result[i] == sorted[sorted.len() - 1]);
                }
            }
        }
        if is_ascending(sorted) {
            assert(is_ascending(front)) by {
                assert forall|i: int, j: int| 0 <= i <= j < front.len() implies front[i].0
                    <= front[j].0 by {
                    assert(sorted[i].0 <= sorted[j].0);
                }
            }
            assert forall|i: int, j: int| 0 <= i <= j < result.len() implies result[i].0
                <= result[j].0 by {
                if j < inner.len() {
                    assert(inner[i].0 <= inner[j].0);
                } else if i < inner.len() {
                    assert(result[i] == inner[i]);
                    if inner[i] != item {
                        let m = choose|m: int| 0 <= m < front.len() && front[m] == inner[i];
                        assert(sorted[m].0 <= sorted[sorted.len() - 1].0);
                    }
                }
            }
        }
    }
}

/// Sorting keeps the number of items and every property that all of them
/// have, and leaves the ranks in ascending order.
pub proof fn lemma_stable_sorted(
    items: Seq<(i64, u32, usize)>,
    property: spec_fn((i64, u32, usize)) -> bool,
)
    ensures
        stable_sorted(items).len() == items.len(),
        is_ascending(stable_sorted(items)),
        all_items(items, property) ==> all_items(stable_sorted(items), property),
    decreases items.len(),
{
    if items.len() > 0 {
        let front = items.drop_last();
        lemma_stable_sorted(front, property);
        lemma_inserted(stable_sorted(front), items.last(), property);
        if all_items(items, property) {
            assert(forall|i: int| 0 <= i < front.len() ==> front[i] == items[i]);
            assert(property(items[items.len() - 1]));
        }
    }
}

/// The number of items of a rank.
pub open spec fn occurrences(items: Seq<(i64, u32, usize)>, rank: int) -> nat
    decreases items.len(),
{
    if items.len() == 0 {
        0
    } else {
        occurrences(items.drop_last(), rank) + if items.last().0 == rank {
            1nat
        } else {
            0nat
        }
    }
}

proof fn lemma_inserted_occurrences(
    sorted: Seq<(i64, u32, usize)>,
    item: (i64, u32, usize),
    rank: int,
)
    ensures
        occurrences(insert_by_rank(sorted, item), rank) == occurrences(sorted, rank) + (if item.0
            == rank {
            1nat
        } else {
            0nat
        }),
    decreases sorted.len(),
{
    if sorted.len() == 0 || sorted.last().0 <= item.0 {
        assert(sorted.push(item).drop_last() =~= sorted);
    } else {
        lemma_inserted_occurrences(sorted.drop_last(), item, rank);
        let inner = insert_by_rank(sorted.drop_last(), item);
        assert(inner.push(sorted.last()).drop_last() =~= inner);
    }
}

/// Sorting keeps the number of items of every rank.
pub proof fn lemma_sorting_keeps_occurrences(items: Seq<(i64, u32, usize)>, rank: int)
    ensures
        occurrences(stable_sorted(items), rank) == occurrences(items, rank),
    decreases items.len(),
{
    if items.len() > 0 {
        lemma_sorting_keeps_occurrences(items.drop_last(), rank);
        lemma_inserted_occurrences(stable_sorted(items.drop_last()), items.last(), rank);
    }
}

/// A rank above the last rank of ascending items is the rank of none.
pub proof fn lemma_no_occurrence_above(items: Seq<(i64, u32, usize)>, rank: int)
    requires
        is_ascending(items),
        items.len() > 0 ==> items.last().0 < rank,
    ensures
        occurrences(items, rank) == 0,
    decreases items.len(),
{
    if items.len() > 0 {
        let front = items.drop_last();
        assert(is_ascending(front)) by {
            assert forall|i: int, j: int| 0 <= i <= j < front.len() implies front[i].0
                <= front[j].0 by {
                assert(items[i].0 <= items[j].0);
            }
        }
        if front.len() > 0 {
            assert(front.last() == items[items.len() - 2]);
            assert(items[items.len() - 2].0 <= items[items.len() - 1].0);
        }
        lemma_no_occurrence_above(front, rank);
    }
}

/// Two sequences merged from their ends: the item with the larger rank
/// comes last, and of two items of one rank the one of the second
/// sequence.
pub open spec fn merged(first: Seq<(i64, u32, usize)>, second: Seq<(i64, u32, usize)>) -> Seq<
    (i64, u32, usize),
>
    decreases first.len() + second.len(),
{
    if first.len() == 0 {
        second
    } else if second.len() == 0 {
        first
    } else if first.last().0 <= second.last().0 {
        merged(first, second.drop_last()).push(second.last())
    } else {
        merged(first.drop_last(), second).push(first.last())
    }
}

proof fn lemma_merged_len(first: Seq<(i64, u32, usize)>, second: Seq<(i64, u32, usize)>)
    ensures
        merged(first, second).len() == first.len() + second.len(),
    decreases first.len() + second.len(),
{
    if first.len() > 0 && second.len() > 0 {
        if first.last().0 <= second.last().0 {
            lemma_merged_len(first, second.drop_last());
        } else {
            lemma_merged_len(first.drop_last(), second);
        }
    }
}

proof fn lemma_inserted_last(sorted: Seq<(i64, u32, usize)>, item: (i64, u32, usize))
    ensures
        insert_by_rank(sorted, item).len() == sorted.len() + 1,
        insert_by_rank(sorted, item).last() == (if sorted.len() == 0 || sorted.last().0 <= item.0 {
            item
        } else {
            sorted.last()
        }),
    decreases sorted.len(),
{
    if !(sorted.len() == 0 || sorted.last().0 <= item.0) {
        lemma_inserted_last(sorted.drop_last(), item);
    }
}

/// Inserting into a merged sequence is merging with the second sequence
/// after the insertion into it.
#[verifier::rlimit(40)]
proof fn lemma_insert_into_merged(
    first: Seq<(i64, u32, usize)>,
    second: Seq<(i64, u32, usize)>,
    item: (i64, u32, usize),
)
    ensures
        insert_by_rank(merged(first, second), item) == merged(first, insert_by_rank(second, item)),
    decreases first.len() + second.len(),
{
    lemma_inserted_last(second, item);
    let inserted = insert_by_rank(second, item);
    if first.len() == 0 {
    } else if second.len() == 0 {
        assert(inserted =~= seq![item]);
        assert(inserted.drop_last() =~= second);
        if first.last().0 <= item.0 {
            assert(merged(first, inserted) == merged(first, second).push(item));
        } else {
            lemma_insert_into_merged(first.drop_last(), second, item);
            assert(merged(first.drop_last(), second) == first.drop_last());
            assert(merged(first, inserted) == merged(first.drop_last(), inserted).push(
                first.last(),
            ));
        }
    } else {
        let whole = merged(first, second);
        if first.last().0 <= second.last().0 {
            assert(whole == merged(first, second.drop_last()).push(second.last()));
            assert(whole.drop_last() =~= merged(first, second.drop_last()));
            if second.last().0 <= item.0 {
                assert(inserted == second.push(item));
                assert(inserted.drop_last() =~= second);
            } else {
                lemma_insert_into_merged(first, second.drop_last(), item);
                assert(inserted == insert_by_rank(second.drop_last(), item).push(second.last()));
                assert(inserted.drop_last() =~= insert_by_rank(second.drop_last(), item));
            }
        } else {
            assert(whole == merged(first.drop_last(), second).push(first.last()));
            assert(whole.drop_last() =~= merged(first.drop_last(), second));
            if first.last().0 <= item.0 {
                assert(inserted == second.push(item));
                assert(inserted.drop_last() =~= second);
            } else {
                lemma_insert_into_merged(first.drop_last(), second, item);
            }
        }
    }
}

/// Merging two sorted sequences sorts what the two hold together.
pub proof fn lemma_merged_is_sorted(
    first: Seq<(i64, u32, usize)>,
    second: Seq<(i64, u32, usize)>,
)
    ensures
        merged(stable_sorted(first), stable_sorted(second)) == stable_sorted(first + second),
    decreases second.len(),
{
    if second.len() == 0 {
        assert(first + second =~= first);
    } else {
        assert((first + second).drop_last() =~= first + second.drop_last());
        assert((first + second).last() == second.last());
        lemma_merged_is_sorted(first, second.drop_last());
        lemma_insert_into_merged(
            stable_sorted(first),
            stable_sorted(second.drop_last()),
            second.last(),
        );
    }
}

/// Merges two sequences as `merged` describes.
#[verifier::rlimit(40)]
fn merge(first: &Vec<(i64, u32, usize)>, second: &Vec<(i64, u32, usize)>) -> (r: Vec<
    (i64, u32, usize),
>)
    requires
        first@.len() + second@.len() <= usize::MAX,
    ensures
        r@ == merged(first@, second@),
{
    let ghost whole = merged(first@, second@);
    proof {
        lemma_merged_len(first@, second@);
    }
    let n: usize = first.len() + second.len();
    let mut result: Vec<(i64, u32, usize)> = Vec::new();
    let mut filled: usize = 0;
    while filled < n
        invariant
            filled <= n,
            result@.len() == filled,
        decreases n - filled,
    {
        result.push((0, 0, 0));
        filled += 1;
    }
    let mut i: usize = first.len();
    let mut j: usize = second.len();
    proof {
        assert(first@.take(i as int) =~= first@);
        assert(second@.take(j as int) =~= second@);
        assert(whole.take(n as int) =~= whole);
    }
    while i + j > 0
        invariant
            i <= first@.len(),
            j <= second@.len(),
            n == first@.len() + second@.len(),
            whole == merged(first@, second@),
            whole.len() == n,
            result@.len() == n,
            merged(first@.take(i as int), second@.take(j as int)) == whole.take(i + j),
            forall|k: int| i + j <= k < n ==> result@[k] == whole[k],
        decreases i + j,
    {
        let ghost front = first@.take(i as int);
        let ghost back = second@.take(j as int);
        let take_second: bool = i == 0 || (j > 0 && first[i - 1].0 <= second[j - 1].0);
        proof {
            lemma_merged_len(front, back);
            if i > 0 {
                assert(front.last() == first@[i - 1]);
                assert(front.drop_last() =~= first@.take(i - 1));
            }
            if j > 0 {
                assert(back.last() == second@[j - 1]);
                assert(back.drop_last() =~= second@.take(j - 1));
            }
            let part = whole.take(i + j);
            assert(part.last() == whole[i + j - 1]);
            assert(part.drop_last() =~= whole.take(i + j - 1));
            if take_second {
                if i == 0 {
                    assert(merged(front, back) == back);
                    assert(merged(front, back.drop_last()) == back.drop_last());
                } else {
                    assert(merged(front, back) == merged(front, back.drop_last()).push(
                        back.last(),
                    ));
                    assert(merged(front, back).drop_last() =~= merged(front, back.drop_last()));
                }
            } else {
                if j == 0 {
                    assert(merged(front, back) == front);
                    assert(merged(front.drop_last(), back) == front.drop_last()) by {
                        if front.drop_last().len() == 0 {
                            assert(front.drop_last() =~= back);
                        }
                    }
                } else {
                    assert(merged(front, back) == merged(front.drop_last(), back).push(
                        front.last(),
                    ));
                    assert(merged(front, back).drop_last() =~= merged(front.drop_last(), back));
                }
            }
        }
        if take_second {
            j -= 1;
            result.set(i + j, second[j]);
        } else {
            i -= 1;
            result.set(i + j, first[i]);
        }
    }
    proof {
        assert(result@ =~= whole);
    }
    result
}

/// The items from `low` up to `high` in sorted order.
fn sorted_range(items: &Vec<(i64, u32, usize)>, low: usize, high: usize) -> (r: Vec<
    (i64, u32, usize),
>)
    requires
        low <= high <= items@.len(),
    ensures
        r@ == stable_sorted(items@.subrange(low as int, high as int)),
    decreases high - low,
{
    if high - low == 0 {
        let empty: Vec<(i64, u32, usize)> = Vec::new();
        proof {
            assert(items@.subrange(low as int, high as int) =~= Seq::empty());
        }
        empty
    } else if high - low == 1 {
        let mut single: Vec<(i64, u32, usize)> = Vec::new();
        single.push(items[low]);
        proof {
            let range = items@.subrange(low as int, high as int);
            assert(range.drop_last() =~= Seq::empty());
            assert(stable_sorted(range.drop_last()) =~= Seq::empty());
            assert(single@ =~= stable_sorted(range));
        }
        single
    } else {
        let middle: usize = low + (high - low) / 2;
        let first: Vec<(i64, u32, usize)> = sorted_range(items, low, middle);
        let second: Vec<(i64, u32, usize)> = sorted_range(items, middle, high);
        proof {
            let left = items@.subrange(low as int, middle as int);
            let right = items@.subrange(middle as int, high as int);
            assert(left + right =~= items@.subrange(low as int, high as int));
            lemma_merged_is_sorted(left, right);
            lemma_stable_sorted(left, |item: (i64, u32, usize)| true);
            lemma_stable_sorted(right, |item: (i64, u32, usize)| true);
        }
        merge(&first, &second)
    }
}

/// Sorts the items by their ranks with a merge sort that keeps items of one
/// rank in their order.
pub fn sort_by_rank(items: &mut Vec<(i64, u32, usize)>)
    ensures
        final(items)@ == stable_sorted(old(items)@),
{
    let sorted: Vec<(i64, u32, usize)> = sorted_range(items, 0, items.len());
    proof {
        assert(items@.subrange(0, items@.len() as int) =~= items@);
    }
    *items = sorted;
}

} // verus!
