//! Additional allocations for containers that already hold commitments.

use crate::bin::{BinWithPackedOrders, BinWithPackedOrdersView};
use crate::knapsack::{
    costs_by_weight, costs_by_weight_and_volume, knapsack_1d_float, knapsack_2d_float, picked,
    selection,
};
use crate::order::{
    order_views, summed_volume, summed_weight, DimensionLessOrder, DimensionLessOrderView,
};
use vstd::prelude::*;

verus! {

/// The weight that the container has left.
pub open spec fn remaining_weight(bin: BinWithPackedOrdersView) -> int {
    bin.max_weight - summed_weight(bin.packed_orders, bin.packed_orders.len() as int)
}

/// The volume that the container has left, where it tracks volume.
pub open spec fn remaining_volume(bin: BinWithPackedOrdersView) -> Option<int> {
    match bin.max_volume {
        Some(max) => Some(max - summed_volume(bin.packed_orders, bin.packed_orders.len() as int)),
        None => None,
    }
}

/// Whether a candidate alone keeps what is left: its weight does not
/// exceed the remaining weight and, where volume is tracked, it has a
/// volume that does not exceed the remaining volume.
pub open spec fn is_candidate(
    order: DimensionLessOrderView,
    weight_left: int,
    volume_left: Option<int>,
) -> bool {
    order.weight <= weight_left && match volume_left {
        Some(left) => order.volume is Some && order.volume.unwrap() <= left,
        None => true,
    }
}

/// Those of the first `n` orders that are candidates, in order.
pub open spec fn candidates(
    orders: Seq<DimensionLessOrderView>,
    weight_left: int,
    volume_left: Option<int>,
    n: int,
) -> Seq<DimensionLessOrderView>
    decreases n,
{
    if n <= 0 {
        Seq::empty()
    } else {
        let rest = candidates(orders, weight_left, volume_left, n - 1);
        if is_candidate(orders[n - 1], weight_left, volume_left) {
            rest.push(orders[n - 1])
        } else {
            rest
        }
    }
}

/// The orders selected for a container in addition to its
/// commitments: a heaviest subset of the candidates that keeps what
/// the container has left; nothing where the commitments already
/// exceed a limit.
pub open spec fn additional(
    bin: BinWithPackedOrdersView,
    orders: Seq<DimensionLessOrderView>,
) -> Seq<DimensionLessOrderView> {
    let weight_left = remaining_weight(bin);
    let volume_left = remaining_volume(bin);
    let pool = candidates(orders, weight_left, volume_left, orders.len() as int);
    if weight_left < 0 {
        Seq::empty()
    } else {
        match volume_left {
            None => picked(pool, selection(costs_by_weight(pool), weight_left, 0)),
            Some(left) => if left < 0 {
                Seq::empty()
            } else {
                picked(pool, selection(costs_by_weight_and_volume(pool), weight_left, left))
            },
        }
    }
}

/// The containers among the first `n` for which something is selected
/// in addition, each with its selection, in order.
pub open spec fn allocated(
    bins: Seq<BinWithPackedOrdersView>,
    orders: Seq<DimensionLessOrderView>,
    n: int,
) -> Seq<BinWithPackedOrdersView>
    decreases n,
{
    if n <= 0 {
        Seq::empty()
    } else {
        let rest = allocated(bins, orders, n - 1);
        let extra = additional(bins[n - 1], orders);
        if extra.len() == 0 {
            rest
        } else {
            rest.push(BinWithPackedOrdersView { additional_packed_orders: extra, ..bins[n - 1] })
        }
    }
}

/// The values of a list of containers.
pub open spec fn commitment_views(bins: Seq<BinWithPackedOrders>) -> Seq<BinWithPackedOrdersView> {
    bins.map_values(|b: BinWithPackedOrders| b@)
}

/// Copies of a list of orders.
pub fn duplicate_orders(orders: &Vec<DimensionLessOrder>) -> (r: Vec<DimensionLessOrder>)
    ensures
        order_views(r@) == order_views(orders@),
{
    let mut r: Vec<DimensionLessOrder> = Vec::new();
    let mut i: usize = 0;
    while i < orders.len()
        invariant
            i <= orders.len(),
            r@.len() == i,
            forall|n: int| 0 <= n < i ==> (#[trigger] r@[n])@ == orders@[n]@,
        decreases orders.len() - i,
    {
        r.push(orders[i].duplicate());
        i = i + 1;
    }
    assert(order_views(r@) =~= order_views(orders@));
    r
}

/// The summed weight and the summed volume of the orders.
pub fn committed_totals(orders: &Vec<DimensionLessOrder>) -> (r: (u128, u128))
    ensures
        r.0 == summed_weight(order_views(orders@), orders@.len() as int),
        r.1 == summed_volume(order_views(orders@), orders@.len() as int),
{
    let mut weight: u128 = 0;
    let mut volume: u128 = 0;
    let mut i: usize = 0;
    while i < orders.len()
        invariant
            i <= orders.len(),
            weight == summed_weight(order_views(orders@), i as int),
            volume == summed_volume(order_views(orders@), i as int),
            weight <= i * 0xffff_ffff_ffff_ffff,
            volume <= i * 0xffff_ffff_ffff_ffff,
        decreases orders.len() - i,
    {
        assert(order_views(orders@)[i as int] == orders@[i as int]@);
        let order_volume: u64 = match orders[i].volume {
            Some(v) => v,
            None => 0,
        };
        weight = weight + orders[i].weight as u128;
        volume = volume + order_volume as u128;
        i = i + 1;
    }
    (weight, volume)
}

/// Selects the orders that a container takes in addition to its
/// commitments.
pub fn select_additional(bin: &BinWithPackedOrders, orders: &Vec<DimensionLessOrder>) -> (r: Vec<
    DimensionLessOrder,
>)
    ensures
        order_views(r@) == additional(bin@, order_views(orders@)),
{
    let totals = committed_totals(&bin.packed_orders);
    if totals.0 > bin.max_weight as u128 {
        return Vec::new();
    }
    let weight_left: u64 = (bin.max_weight as u128 - totals.0) as u64;
    let mut volume_left: Option<u64> = None;
    match bin.max_volume {
        Some(max) => {
            if totals.1 > max as u128 {
                return Vec::new();
            }
            volume_left = Some((max as u128 - totals.1) as u64);
        },
        None => {},
    }
    let ghost ov = order_views(orders@);
    let ghost wl = remaining_weight(bin@);
    let ghost vl = remaining_volume(bin@);
    let mut pool: Vec<DimensionLessOrder> = Vec::new();
    let mut i: usize = 0;
    while i < orders.len()
        invariant
            i <= orders.len(),
            ov == order_views(orders@),
            wl == weight_left as int,
            vl == (match volume_left {
                Some(left) => Some(left as int),
                None => None,
            }),
            order_views(pool@) == candidates(ov, wl, vl, i as int),
        decreases orders.len() - i,
    {
        assert(ov[i as int] == orders@[i as int]@);
        let fits_weight = orders[i].weight <= weight_left;
        let fits_volume = match volume_left {
            Some(left) => match orders[i].volume {
                Some(v) => v <= left,
                None => false,
            },
            None => true,
        };
        if fits_weight && fits_volume {
            let ghost prior = order_views(pool@);
            pool.push(orders[i].duplicate());
            assert(order_views(pool@) =~= prior.push(ov[i as int]));
        }
        i = i + 1;
    }
    match volume_left {
        Some(left) => knapsack_2d_float(pool.as_slice(), weight_left, left),
        None => knapsack_1d_float(pool.as_slice(), weight_left),
    }
}

/// For each container, selects the orders that it takes in addition
/// to its commitments, and returns the containers for which something
/// was selected, in order, each with its selection.
pub fn pack_max_dimensionless_orders(
    dl_bins_with_packed_orders: &Vec<BinWithPackedOrders>,
    additional_orders: &Vec<DimensionLessOrder>,
) -> (r: Vec<BinWithPackedOrders>)
    ensures
        commitment_views(r@) == allocated(
            commitment_views(dl_bins_with_packed_orders@),
            order_views(additional_orders@),
            dl_bins_with_packed_orders@.len() as int,
        ),
{
    let ghost bv = commitment_views(dl_bins_with_packed_orders@);
    let ghost ov = order_views(additional_orders@);
    let mut r: Vec<BinWithPackedOrders> = Vec::new();
    let mut i: usize = 0;
    while i < dl_bins_with_packed_orders.len()
        invariant
            i <= dl_bins_with_packed_orders.len(),
            bv == commitment_views(dl_bins_with_packed_orders@),
            ov == order_views(additional_orders@),
            commitment_views(r@) == allocated(bv, ov, i as int),
        decreases dl_bins_with_packed_orders.len() - i,
    {
        let bin = &dl_bins_with_packed_orders[i];
        assert(bv[i as int] == bin@);
        let selected = select_additional(bin, additional_orders);
        if selected.len() > 0 {
            let ghost prior = commitment_views(r@);
            let kept = BinWithPackedOrders {
                id: bin.id.clone(),
                max_weight: bin.max_weight,
                max_volume: bin.max_volume,
                packed_orders: duplicate_orders(&bin.packed_orders),
                additional_packed_orders: selected,
            };
            r.push(kept);
            assert(commitment_views(r@) =~= prior.push(kept@));
        }
        i = i + 1;
    }
    r
}

} // verus!
