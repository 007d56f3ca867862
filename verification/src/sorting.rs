//! Ordering containers by their weight limit and items by their weight.

use crate::bin::{Bin, BinView};
use crate::item::{Item, ItemView};
use crate::solver::{bin_views, item_views};
use vstd::prelude::*;

verus! {

/// Whether a container with weight limit `limit` has to stand after
/// one with weight limit `than`.
pub open spec fn goes_after(limit: u64, than: u64, ascending: bool) -> bool {
    if ascending {
        limit > than
    } else {
        limit < than
    }
}

/// The index, from `from` on, of the first container that has to stand
/// after a container with weight limit `limit`; the length of the list
/// where there is none.
pub open spec fn insert_position(bins: Seq<BinView>, limit: u64, ascending: bool, from: int) -> int
    decreases bins.len() - from,
{
    if from < 0 || from >= bins.len() {
        bins.len() as int
    } else if goes_after(bins[from].max_weight, limit, ascending) {
        from
    } else {
        insert_position(bins, limit, ascending, from + 1)
    }
}

/// The first `n` containers in order of their weight limits, those of
/// equal limit in the order in which they stood.
pub open spec fn sorted_by_weight(bins: Seq<BinView>, ascending: bool, n: int) -> Seq<BinView>
    decreases n,
{
    if n <= 0 {
        Seq::empty()
    } else {
        let before = sorted_by_weight(bins, ascending, n - 1);
        before.insert(
            insert_position(before, bins[n - 1].max_weight, ascending, 0),
            bins[n - 1],
        )
    }
}

/// Whether no container of the list has to stand after a later one.
pub open spec fn is_ordered(bins: Seq<BinView>, ascending: bool) -> bool {
    forall|i: int, j: int|
        0 <= i < j < bins.len() ==> !goes_after(
            (#[trigger] bins[i]).max_weight,
            (#[trigger] bins[j]).max_weight,
            ascending,
        )
}

/// The insert position lies in the list or at its end; no container
/// before it has to stand after the new one, and the container at it
/// has to.
pub proof fn lemma_insert_position(bins: Seq<BinView>, limit: u64, ascending: bool, from: int)
    requires
        0 <= from <= bins.len(),
    ensures
        from <= insert_position(bins, limit, ascending, from) <= bins.len(),
        forall|k: int|
            from <= k < insert_position(bins, limit, ascending, from) ==> !goes_after(
                (#[trigger] bins[k]).max_weight,
                limit,
                ascending,
            ),
        insert_position(bins, limit, ascending, from) < bins.len() ==> goes_after(
            bins[insert_position(bins, limit, ascending, from)].max_weight,
            limit,
            ascending,
        ),
    decreases bins.len() - from,
{
    if from < bins.len() && !goes_after(bins[from].max_weight, limit, ascending) {
        lemma_insert_position(bins, limit, ascending, from + 1);
    }
}

/// The sorted list is ordered, and holds exactly the containers that
/// were given, each as often as it was given.
pub proof fn lemma_sorted_by_weight(bins: Seq<BinView>, ascending: bool, n: int)
    requires
        0 <= n <= bins.len(),
    ensures
        sorted_by_weight(bins, ascending, n).len() == n,
        is_ordered(sorted_by_weight(bins, ascending, n), ascending),
        sorted_by_weight(bins, ascending, n).to_multiset() == bins.take(n).to_multiset(),
    decreases n,
{
    broadcast use vstd::seq_lib::group_to_multiset_ensures;

    if n > 0 {
        lemma_sorted_by_weight(bins, ascending, n - 1);
        let before = sorted_by_weight(bins, ascending, n - 1);
        let bin = bins[n - 1];
        let at = insert_position(before, bin.max_weight, ascending, 0);
        lemma_insert_position(before, bin.max_weight, ascending, 0);
        let after = before.insert(at, bin);
        assert forall|i: int, j: int| 0 <= i < j < after.len() implies !goes_after(
            (#[trigger] after[i]).max_weight,
            (#[trigger] after[j]).max_weight,
            ascending,
        ) by {
            if j < at {
                assert(after[i] == before[i] && after[j] == before[j]);
            } else if j == at {
                assert(after[i] == before[i]);
            } else if i < at {
                assert(after[i] == before[i] && after[j] == before[j - 1]);
            } else if i == at {
                assert(after[j] == before[j - 1]);
                assert(at <= j - 1);
                if at < j - 1 {
                    assert(!goes_after(before[at].max_weight, before[j - 1].max_weight, ascending));
                }
            } else {
                assert(after[i] == before[i - 1] && after[j] == before[j - 1]);
            }
        }
        assert(bins.take(n) =~= bins.take(n - 1).push(bin));
        assert(after.to_multiset() =~= before.to_multiset().insert(bin));
    } else {
        assert(bins.take(n) =~= Seq::<BinView>::empty());
    }
}

/// Tests whether a container with weight limit `limit` has to stand
/// after one with weight limit `than`.
pub fn stands_after(limit: u64, than: u64, ascending: bool) -> (r: bool)
    ensures
        r == goes_after(limit, than, ascending),
{
    if ascending {
        limit > than
    } else {
        limit < than
    }
}

/// Sorts the containers by their weight limit, ascending or
/// descending. Containers of equal limit keep their order.
pub fn sort_bin_list_by_weight(bin_list: &mut Vec<Bin>, ascending: bool)
    ensures
        bin_views(final(bin_list)@) == sorted_by_weight(
            bin_views(old(bin_list)@),
            ascending,
            old(bin_list)@.len() as int,
        ),
        is_ordered(bin_views(final(bin_list)@), ascending),
        bin_views(final(bin_list)@).to_multiset() == bin_views(old(bin_list)@).to_multiset(),
{
    let ghost given = bin_views(bin_list@);
    let count: usize = bin_list.len();
    let mut i: usize = 0;
    while i < count
        invariant
            i <= count,
            count == given.len(),
            bin_list@.len() == count,
            bin_views(bin_list@).take(i as int) == sorted_by_weight(given, ascending, i as int),
            bin_views(bin_list@).skip(i as int) == given.skip(i as int),
        decreases count - i,
    {
        let ghost start = bin_views(bin_list@);
        let ghost before = start.take(i as int);
        assert(start[i as int] == start.skip(i as int)[0]);
        let bin = bin_list.remove(i);
        assert(bin@ == given[i as int]);
        assert(bin_views(bin_list@) =~= start.remove(i as int));
        let limit: u64 = bin.max_weight;
        let mut at: usize = 0;
        while at < i && !stands_after(bin_list[at].max_weight, limit, ascending)
            invariant
                at <= i,
                i < count,
                bin_list@.len() == count - 1,
                before.len() == i,
                forall|k: int| 0 <= k < i ==> bin_views(bin_list@)[k] == #[trigger] before[k],
                insert_position(before, limit, ascending, 0) == insert_position(
                    before,
                    limit,
                    ascending,
                    at as int,
                ),
            decreases i - at,
        {
            assert(bin_views(bin_list@)[at as int] == before[at as int]);
            at = at + 1;
        }
        proof {
            if at < i {
                assert(bin_views(bin_list@)[at as int] == before[at as int]);
            }
            assert(at as int == insert_position(before, limit, ascending, 0));
        }
        let ghost removed = bin_views(bin_list@);
        bin_list.insert(at, bin);
        proof {
            let now = bin_views(bin_list@);
            assert(now =~= removed.insert(at as int, bin@));
            assert(now.take(i as int + 1) =~= before.insert(at as int, bin@));
            assert(now.skip(i as int + 1) =~= given.skip(i as int + 1)) by {
                let rest = now.skip(i as int + 1);
                assert forall|k: int| 0 <= k < count - i - 1 implies #[trigger] rest[k]
                    == given.skip(i as int + 1)[k] by {
                    assert(now[i as int + 1 + k] == removed[i as int + k]);
                    assert(removed[i as int + k] == start[i as int + 1 + k]);
                    assert(start[i as int + 1 + k] == start.skip(i as int)[k + 1]);
                    assert(given.skip(i as int)[k + 1] == given[i as int + 1 + k]);
                }
            }
        }
        i = i + 1;
    }
    proof {
        assert(bin_views(bin_list@).take(i as int) =~= bin_views(bin_list@));
        assert(given.take(count as int) =~= given);
        lemma_sorted_by_weight(given, ascending, count as int);
    }
}

/// The index, from `from` on, of the first item that is lighter than
/// `weight`; the length of the list where there is none.
pub open spec fn heavier_position(items: Seq<ItemView>, weight: u64, from: int) -> int
    decreases items.len() - from,
{
    if from < 0 || from >= items.len() {
        items.len() as int
    } else if items[from].weight < weight {
        from
    } else {
        heavier_position(items, weight, from + 1)
    }
}

/// The first `n` items from the heaviest to the lightest, those of
/// equal weight in the order in which they stood.
pub open spec fn heaviest_first(items: Seq<ItemView>, n: int) -> Seq<ItemView>
    decreases n,
{
    if n <= 0 {
        Seq::empty()
    } else {
        let before = heaviest_first(items, n - 1);
        before.insert(heavier_position(before, items[n - 1].weight, 0), items[n - 1])
    }
}

/// Whether no item of the list is lighter than a later one.
pub open spec fn is_descending(items: Seq<ItemView>) -> bool {
    forall|i: int, j: int|
        0 <= i < j < items.len() ==> (#[trigger] items[i]).weight >= (#[trigger] items[j]).weight
}

/// The position for a new item lies in the list or at its end; no item
/// before it is lighter than the new one, and the item at it is.
pub proof fn lemma_heavier_position(items: Seq<ItemView>, weight: u64, from: int)
    requires
        0 <= from <= items.len(),
    ensures
        from <= heavier_position(items, weight, from) <= items.len(),
        forall|k: int|
            from <= k < heavier_position(items, weight, from) ==> (#[trigger] items[k]).weight
                >= weight,
        heavier_position(items, weight, from) < items.len() ==> items[heavier_position(
            items,
            weight,
            from,
        )].weight < weight,
    decreases items.len() - from,
{
    if from < items.len() && items[from].weight >= weight {
        lemma_heavier_position(items, weight, from + 1);
    }
}

/// The sorted list is descending, and holds exactly the items that
/// were given, each as often as it was given.
pub proof fn lemma_heaviest_first(items: Seq<ItemView>, n: int)
    requires
        0 <= n <= items.len(),
    ensures
        heaviest_first(items, n).len() == n,
        is_descending(heaviest_first(items, n)),
        heaviest_first(items, n).to_multiset() == items.take(n).to_multiset(),
    decreases n,
{
    broadcast use vstd::seq_lib::group_to_multiset_ensures;

    if n > 0 {
        lemma_heaviest_first(items, n - 1);
        let before = heaviest_first(items, n - 1);
        let item = items[n - 1];
        let at = heavier_position(before, item.weight, 0);
        lemma_heavier_position(before, item.weight, 0);
        let after = before.insert(at, item);
        assert forall|i: int, j: int| 0 <= i < j < after.len() implies (#[trigger] after[i]).weight
            >= (#[trigger] after[j]).weight by {
            if j < at {
                assert(after[i] == before[i] && after[j] == before[j]);
            } else if j == at {
                assert(after[i] == before[i]);
            } else if i < at {
                assert(after[i] == before[i] && after[j] == before[j - 1]);
            } else if i == at {
                assert(after[j] == before[j - 1]);
                if at < j - 1 {
                    assert(before[at].weight >= before[j - 1].weight);
                }
            } else {
                assert(after[i] == before[i - 1] && after[j] == before[j - 1]);
            }
        }
        assert(items.take(n) =~= items.take(n - 1).push(item));
        assert(after.to_multiset() =~= before.to_multiset().insert(item));
    } else {
        assert(items.take(n) =~= Seq::<ItemView>::empty());
    }
}

/// Sorts the items from the heaviest to the lightest. Items of equal
/// weight keep their order.
pub fn sort_item_list_by_weight(item_list: &mut Vec<Item>)
    ensures
        item_views(final(item_list)@) == heaviest_first(
            item_views(old(item_list)@),
            old(item_list)@.len() as int,
        ),
        is_descending(item_views(final(item_list)@)),
        item_views(final(item_list)@).to_multiset() == item_views(old(item_list)@).to_multiset(),
{
    let ghost given = item_views(item_list@);
    let count: usize = item_list.len();
    let mut i: usize = 0;
    while i < count
        invariant
            i <= count,
            count == given.len(),
            item_list@.len() == count,
            item_views(item_list@).take(i as int) == heaviest_first(given, i as int),
            item_views(item_list@).skip(i as int) == given.skip(i as int),
        decreases count - i,
    {
        let ghost start = item_views(item_list@);
        let ghost before = start.take(i as int);
        assert(start[i as int] == start.skip(i as int)[0]);
        let item = item_list.remove(i);
        assert(item@ == given[i as int]);
        assert(item_views(item_list@) =~= start.remove(i as int));
        let weight: u64 = item.weight;
        let mut at: usize = 0;
        while at < i && item_list[at].weight >= weight
            invariant
                at <= i,
                i < count,
                item_list@.len() == count - 1,
                before.len() == i,
                forall|k: int| 0 <= k < i ==> item_views(item_list@)[k] == #[trigger] before[k],
                heavier_position(before, weight, 0) == heavier_position(before, weight, at as int),
            decreases i - at,
        {
            assert(item_views(item_list@)[at as int] == before[at as int]);
            at = at + 1;
        }
        proof {
            if at < i {
                assert(item_views(item_list@)[at as int] == before[at as int]);
            }
            assert(at as int == heavier_position(before, weight, 0));
        }
        let ghost removed = item_views(item_list@);
        item_list.insert(at, item);
        proof {
            let now = item_views(item_list@);
            assert(now =~= removed.insert(at as int, item@));
            assert(now.take(i as int + 1) =~= before.insert(at as int, item@));
            assert(now.skip(i as int + 1) =~= given.skip(i as int + 1)) by {
                let rest = now.skip(i as int + 1);
                assert forall|k: int| 0 <= k < count - i - 1 implies #[trigger] rest[k]
                    == given.skip(i as int + 1)[k] by {
                    assert(now[i as int + 1 + k] == removed[i as int + k]);
                    assert(removed[i as int + k] == start[i as int + 1 + k]);
                    assert(start[i as int + 1 + k] == start.skip(i as int)[k + 1]);
                    assert(given.skip(i as int)[k + 1] == given[i as int + 1 + k]);
                }
            }
        }
        i = i + 1;
    }
    proof {
        assert(item_views(item_list@).take(i as int) =~= item_views(item_list@));
        assert(given.take(count as int) =~= given);
        lemma_heaviest_first(given, count as int);
    }
}

} // verus!
