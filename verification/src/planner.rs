//! From orders and containers as they arrive to the container that
//! takes them all.

use crate::bin::{lemma_total_volume_prefix, total_volume, total_weight, Bin, BinView, RawBin};
use crate::item::{lemma_volume_bounds, Item, ItemView};
use crate::order::{decimal, decimal_string, Order, RawOrder};
use crate::solver::{
    bin_views, counts_view, find_fitting_container, item_views, outcome_view, placed_counts,
    selects, zero_counts,
};
use crate::sorting::{
    heaviest_first, lemma_sorted_by_weight, sort_bin_list_by_weight, sort_item_list_by_weight,
    sorted_by_weight,
};
use vstd::prelude::*;
use vstd::string::StringExecFns;

verus! {

/// The items of the first `n` orders, order by order.
pub open spec fn flattened(orders: Seq<RawOrder>, n: int) -> Seq<ItemView>
    decreases n,
{
    if n <= 0 {
        Seq::empty()
    } else {
        flattened(orders, n - 1) + orders[n - 1].expanded(orders[n - 1].items@.len() as int)
    }
}

/// The empty container of a description.
pub open spec fn empty_bin(raw: RawBin) -> BinView {
    BinView {
        name: raw.name@,
        width: raw.width,
        depth: raw.depth,
        height: raw.height,
        max_weight: raw.max_weight,
        packed: Seq::empty(),
    }
}

/// The empty containers of a list of descriptions.
pub open spec fn empty_bins(raw: Seq<RawBin>) -> Seq<BinView> {
    raw.map_values(|b: RawBin| empty_bin(b))
}

/// The text of a progress report: the index of the container and the
/// index of the item, joined by `-`.
pub open spec fn progress_label(bin_index: int, item_index: int) -> Seq<char> {
    decimal(bin_index) + "-"@ + decimal(item_index)
}

/// The reports that are due for the container at `bin_index` when
/// `placed` items were placed in it: one for the first item and one
/// for every tenth after it.
pub open spec fn progress_of_bin(bin_index: int, placed: int) -> Seq<Seq<char>>
    decreases placed,
{
    if placed <= 0 {
        Seq::empty()
    } else {
        let rest = progress_of_bin(bin_index, placed - 1);
        if (placed - 1) % 10 == 0 {
            rest.push(progress_label(bin_index, placed - 1))
        } else {
            rest
        }
    }
}

/// The reports that are due for the first `n` containers, container
/// by container, where `counts` says how many items were placed in
/// each.
pub open spec fn progress_of_bins(counts: Seq<int>, n: int) -> Seq<Seq<char>>
    decreases n,
{
    if n <= 0 {
        Seq::empty()
    } else {
        progress_of_bins(counts, n - 1) + progress_of_bin(n - 1, counts[n - 1])
    }
}

/// The texts of a list of strings.
pub open spec fn string_views(strings: Seq<String>) -> Seq<Seq<char>> {
    strings.map_values(|s: String| s@)
}

/// The progress reports of a search that placed `counts[j]` items in
/// container `j`, in the order in which they are due.
pub fn progress_reports(counts: &Vec<usize>) -> (reports: Vec<String>)
    ensures
        string_views(reports@) == progress_of_bins(counts_view(counts@), counts@.len() as int),
{
    let mut reports: Vec<String> = Vec::new();
    let mut j: usize = 0;
    assert(string_views(reports@) =~= progress_of_bins(counts_view(counts@), 0));
    while j < counts.len()
        invariant
            j <= counts.len(),
            string_views(reports@) == progress_of_bins(counts_view(counts@), j as int),
        decreases counts.len() - j,
    {
        let placed: usize = counts[j];
        assert(counts_view(counts@)[j as int] == placed);
        let ghost done = string_views(reports@);
        let mut i: usize = 0;
        assert(string_views(reports@) =~= done + progress_of_bin(j as int, 0));
        while i < placed
            invariant
                i <= placed,
                string_views(reports@) == done + progress_of_bin(j as int, i as int),
            decreases placed - i,
        {
            if i % 10 == 0 {
                let ghost prior = string_views(reports@);
                let label = decimal_string(j as u64).concat("-").concat(
                    decimal_string(i as u64).as_str(),
                );
                reports.push(label);
                assert(string_views(reports@) =~= prior.push(label@));
            }
            assert(string_views(reports@) =~= done + progress_of_bin(j as int, i as int + 1));
            i = i + 1;
        }
        j = j + 1;
    }
    reports
}

/// The summed volume of the items, where it fits in 128 bits.
pub fn checked_total_volume(items: &Vec<Item>) -> (r: Option<u128>)
    ensures
        match r {
            Some(total) => total == total_volume(item_views(items@)),
            None => total_volume(item_views(items@)) > u128::MAX,
        },
{
    let ghost views = item_views(items@);
    let mut total: u128 = 0;
    let mut i: usize = 0;
    proof {
        lemma_total_volume_prefix(views, 0);
    }
    while i < items.len()
        invariant
            i <= items.len(),
            views == item_views(items@),
            total == total_volume(views.take(i as int)),
        decreases items.len() - i,
    {
        proof {
            lemma_total_volume_prefix(views, i as int);
            lemma_total_volume_prefix(views, i as int + 1);
        }
        let volume = items[i].get_volume();
        if volume > u128::MAX - total {
            return None;
        }
        total = total + volume;
        i = i + 1;
    }
    proof {
        assert(views.take(i as int) =~= views);
    }
    Some(total)
}

/// Copies of the items of every order, order by order.
pub fn collect_items(orders: &Vec<Order>) -> (items: Vec<Item>)
    ensures
        item_views(items@) == all_items(orders@, orders@.len() as int),
{
    let mut items: Vec<Item> = Vec::new();
    let mut n: usize = 0;
    assert(item_views(items@) =~= all_items(orders@, 0));
    while n < orders.len()
        invariant
            n <= orders.len(),
            item_views(items@) == all_items(orders@, n as int),
        decreases orders.len() - n,
    {
        let order = &orders[n];
        let ghost done = item_views(items@);
        let mut i: usize = 0;
        while i < order.items.len()
            invariant
                i <= order.items.len(),
                item_views(items@) == done + order.item_views().take(i as int),
            decreases order.items.len() - i,
        {
            let ghost prior = item_views(items@);
            items.push(order.items[i].duplicate());
            assert(item_views(items@) =~= prior.push(order.items@[i as int]@));
            assert(order.item_views().take(i as int + 1) =~= order.item_views().take(
                i as int,
            ).push(order.items@[i as int]@));
            i = i + 1;
        }
        assert(order.item_views().take(i as int) =~= order.item_views());
        n = n + 1;
    }
    items
}

/// The items of the first `n` orders, order by order.
pub open spec fn all_items(orders: Seq<Order>, n: int) -> Seq<ItemView>
    decreases n,
{
    if n <= 0 {
        Seq::empty()
    } else {
        all_items(orders, n - 1) + orders[n - 1].item_views()
    }
}

/// Finds the container that takes every item of the orders.
///
/// Every line of every order is expanded into its units. The items
/// are taken from the heaviest to the lightest and the containers from
/// the lowest weight limit to the highest; the first container that
/// takes every item is returned as packed. The totals that a container
/// has to admit are the summed weight and the summed volume of all
/// items.
///
/// With the container come the progress reports of the search, for
/// the caller to pass on: for every container that was tried, one for
/// its first placed item and one for every tenth after it.
pub fn get_smallest_fitting_bin_for_order_list(raw_orders: &Vec<RawOrder>, raw_bins: &Vec<RawBin>) -> (r: (
    Option<Bin>,
    Vec<String>,
))
    ensures
        selects(
            sorted_by_weight(empty_bins(raw_bins@), true, raw_bins@.len() as int),
            heaviest_first(
                flattened(raw_orders@, raw_orders@.len() as int),
                flattened(raw_orders@, raw_orders@.len() as int).len() as int,
            ),
            total_weight(flattened(raw_orders@, raw_orders@.len() as int)),
            total_volume(flattened(raw_orders@, raw_orders@.len() as int)),
            outcome_view(r.0),
        ),
        r.0 is Some ==> r.0.unwrap()@.wf(),
        string_views(r.1@) == progress_of_bins(
            placed_counts(
                sorted_by_weight(empty_bins(raw_bins@), true, raw_bins@.len() as int),
                heaviest_first(
                    flattened(raw_orders@, raw_orders@.len() as int),
                    flattened(raw_orders@, raw_orders@.len() as int).len() as int,
                ),
                total_weight(flattened(raw_orders@, raw_orders@.len() as int)),
                total_volume(flattened(raw_orders@, raw_orders@.len() as int)),
            ),
            raw_bins@.len() as int,
        ),
{
    let mut orders: Vec<Order> = Vec::new();
    let mut n: usize = 0;
    assert(all_items(orders@, 0) =~= flattened(raw_orders@, 0));
    while n < raw_orders.len()
        invariant
            n <= raw_orders.len(),
            orders@.len() == n,
            all_items(orders@, n as int) == flattened(raw_orders@, n as int),
        decreases raw_orders.len() - n,
    {
        let ghost prior = orders@;
        let order = raw_orders[n].create_order_from_raw_order();
        orders.push(order);
        proof {
            lemma_all_items_prefix(prior, orders@, n as int);
        }
        n = n + 1;
    }
    let mut bins: Vec<Bin> = Vec::new();
    let mut b: usize = 0;
    while b < raw_bins.len()
        invariant
            b <= raw_bins.len(),
            bin_views(bins@) == empty_bins(raw_bins@).take(b as int),
        decreases raw_bins.len() - b,
    {
        let ghost prior = bin_views(bins@);
        let bin = raw_bins[b].convert_to_bin();
        bins.push(bin);
        assert(bin_views(bins@) =~= prior.push(bin@));
        assert(empty_bins(raw_bins@).take(b as int + 1) =~= empty_bins(raw_bins@).take(
            b as int,
        ).push(bin@));
        b = b + 1;
    }
    assert(empty_bins(raw_bins@).take(b as int) =~= empty_bins(raw_bins@));
    let mut item_list = collect_items(&orders);
    let ghost items = item_views(item_list@);
    let whole = Order { name: String::new(), items: item_list };
    let total_order_weight = whole.get_order_weight();
    let total = checked_total_volume(&whole.items);
    item_list = whole.items;
    sort_item_list_by_weight(&mut item_list);
    sort_bin_list_by_weight(&mut bins, true);
    proof {
        assert forall|j: int| 0 <= j < bins@.len() implies (#[trigger] bins@[j])@.wf()
            && bins@[j]@.packed_volume() <= u128::MAX by {
            let sorted = bin_views(bins@);
            let given = empty_bins(raw_bins@);
            assert(sorted[j] == bins@[j]@);
            broadcast use vstd::seq_lib::group_to_multiset_ensures;

            assert(sorted.contains(sorted[j]));
            assert(sorted.to_multiset().count(sorted[j]) > 0);
            assert(given.contains(sorted[j]));
            let k = choose|k: int| 0 <= k < given.len() && given[k] == sorted[j];
            assert(given[k] == empty_bin(raw_bins@[k]));
            assert(sorted[j].packed =~= Seq::<ItemView>::empty());
            lemma_volume_bounds(sorted[j].width, sorted[j].depth, sorted[j].height);
        }
    }
    let ghost sorted = bin_views(bins@);
    proof {
        lemma_sorted_by_weight(empty_bins(raw_bins@), true, raw_bins@.len() as int);
    }
    match total {
        Some(total_order_volume) => {
            let found = find_fitting_container(
                &item_list,
                &bins,
                total_order_weight,
                total_order_volume,
            );
            assert(counts_view(found.1@).len() == found.1@.len());
            assert(counts_view(found.1@).len() == sorted.len());
            let reports = progress_reports(&found.1);
            (found.0, reports)
        },
        None => {
            proof {
                let tw = total_order_weight as int;
                let tv = total_volume(items);
                let sorted_items = item_views(item_list@);
                assert forall|k: int| 0 <= k < sorted.len() implies sorted[k].volume()
                    <= u128::MAX by {
                    lemma_volume_bounds(sorted[k].width, sorted[k].depth, sorted[k].height);
                }
            }
            let counts = zero_counts(bins.len());
            proof {
                assert(counts_view(counts@) =~= placed_counts(
                    sorted,
                    item_views(item_list@),
                    total_order_weight as int,
                    total_volume(items),
                ));
            }
            let reports = progress_reports(&counts);
            (None, reports)
        },
    }
}

/// Appending an order appends its items to the items of all orders.
pub proof fn lemma_all_items_prefix(shorter: Seq<Order>, longer: Seq<Order>, n: int)
    requires
        0 <= n <= shorter.len(),
        shorter.len() <= longer.len(),
        forall|k: int| 0 <= k < shorter.len() ==> shorter[k] == longer[k],
    ensures
        all_items(shorter, n) == all_items(longer, n),
    decreases n,
{
    if n > 0 {
        lemma_all_items_prefix(shorter, longer, n - 1);
    }
}

} // verus!
