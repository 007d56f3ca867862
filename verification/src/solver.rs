//! First-fit placement of items at open pivots, and the search for the
//! first container that takes every item.

use crate::bin::{lemma_total_volume_prefix, lemma_total_weight_prefix, Bin, BinView};
use crate::geometry::{boxes_intersect, check_inside, check_rectangle_intersection, inside};
use crate::item::{
    lemma_label_round_trip, lemma_volume_bounds, rotated, Item, ItemView, Rotation,
};
use vstd::prelude::*;

verus! {

/// The rotations that are tried at a pivot, in order of preference.
pub open spec fn rotation_choices(orientable: bool) -> Seq<Rotation> {
    if orientable {
        seq![
            Rotation::WHD,
            Rotation::HWD,
            Rotation::HDW,
            Rotation::DHW,
            Rotation::DWH,
            Rotation::WDH,
        ]
    } else {
        seq![Rotation::WHD, Rotation::DHW]
    }
}

/// Whether `item`, turned by `r` and set down at `pivot`, stays inside
/// the container and collides with nothing that is packed there.
pub open spec fn fits_at(bin: BinView, item: ItemView, pivot: Seq<u32>, r: Rotation) -> bool {
    let dim = rotated(item.width, item.depth, item.height, r);
    inside(bin.width, bin.height, bin.depth, dim, pivot) && forall|k: int|
        0 <= k < bin.packed.len() ==> !boxes_intersect(
            (#[trigger] bin.packed[k]).extent(),
            bin.packed[k].position,
            dim,
            pivot,
        )
}

/// The first of `rots[from..]` under which the item fits at `pivot`.
pub open spec fn first_rotation(
    bin: BinView,
    item: ItemView,
    pivot: Seq<u32>,
    rots: Seq<Rotation>,
    from: int,
) -> Option<Rotation>
    decreases rots.len() - from,
{
    if from < 0 || from >= rots.len() {
        None
    } else if fits_at(bin, item, pivot, rots[from]) {
        Some(rots[from])
    } else {
        first_rotation(bin, item, pivot, rots, from + 1)
    }
}

/// The first of `pivots[from..]` at which the item fits under some
/// rotation, with the first such rotation.
pub open spec fn first_fit(
    bin: BinView,
    item: ItemView,
    pivots: Seq<Seq<u32>>,
    orientable: bool,
    from: int,
) -> Option<(int, Rotation)>
    decreases pivots.len() - from,
{
    if from < 0 || from >= pivots.len() {
        None
    } else {
        match first_rotation(bin, item, pivots[from], rotation_choices(orientable), 0) {
            Some(r) => Some((from, r)),
            None => first_fit(bin, item, pivots, orientable, from + 1),
        }
    }
}

/// Whether the item's volume or weight, added to what is packed,
/// exceeds the container's capacity.
pub open spec fn over_capacity(bin: BinView, item: ItemView) -> bool {
    item.volume() + bin.packed_volume() > bin.volume() || item.weight + bin.packed_weight()
        > bin.max_weight
}

/// Where the item goes: the index of the pivot and the rotation, or
/// `None` when the container cannot take it.
pub open spec fn placement(
    bin: BinView,
    item: ItemView,
    pivots: Seq<Seq<u32>>,
    orientable: bool,
) -> Option<(int, Rotation)> {
    if over_capacity(bin, item) {
        None
    } else {
        first_fit(bin, item, pivots, orientable, 0)
    }
}

/// Those of the first `n` pivots that differ from `used`, in order.
pub open spec fn carried_over(pivots: Seq<Seq<u32>>, used: Seq<u32>, n: int) -> Seq<Seq<u32>>
    decreases n,
{
    if n <= 0 {
        Seq::empty()
    } else {
        let rest = carried_over(pivots, used, n - 1);
        if pivots[n - 1] == used {
            rest
        } else {
            rest.push(pivots[n - 1])
        }
    }
}

/// The pivots that a box of extents `dim` opens when it is set down at
/// `pivot`: beside it along the width, behind it along the depth and,
/// if `stackable`, on top of it.
pub open spec fn opened(pivot: Seq<u32>, dim: Seq<u32>, stackable: bool) -> Seq<Seq<u32>> {
    let along_width = seq![(pivot[0] + dim[0]) as u32, pivot[1], pivot[2]];
    let along_depth = seq![pivot[0], pivot[1], (pivot[2] + dim[2]) as u32];
    let along_height = seq![pivot[0], (pivot[1] + dim[1]) as u32, pivot[2]];
    if stackable {
        seq![along_width, along_depth, along_height]
    } else {
        seq![along_width, along_depth]
    }
}

/// The open pivots after a placement at `pivots[used]`: the newly
/// opened ones, then every old pivot that differs from the used one.
pub open spec fn next_pivots(
    pivots: Seq<Seq<u32>>,
    used: int,
    dim: Seq<u32>,
    stackable: bool,
) -> Seq<Seq<u32>> {
    opened(pivots[used], dim, stackable) + carried_over(pivots, pivots[used], pivots.len() as int)
}

/// The pivots of a list as sequences of coordinates.
pub open spec fn pivot_seq(pivots: Seq<[u32; 3]>) -> Seq<Seq<u32>> {
    pivots.map_values(|p: [u32; 3]| p@)
}

/// A placement that `first_fit` finds is a pivot of the list at which
/// the item fits, and no earlier pivot admits the item under any
/// rotation of the choice.
pub proof fn lemma_first_fit_fits(
    bin: BinView,
    item: ItemView,
    pivots: Seq<Seq<u32>>,
    orientable: bool,
    from: int,
)
    requires
        0 <= from,
    ensures
        match first_fit(bin, item, pivots, orientable, from) {
            Some((idx, r)) => from <= idx < pivots.len() && fits_at(bin, item, pivots[idx], r)
                && first_rotation(bin, item, pivots[idx], rotation_choices(orientable), 0)
                == Some(r) && forall|j: int|
                from <= j < idx ==> first_rotation(
                    bin,
                    item,
                    #[trigger] pivots[j],
                    rotation_choices(orientable),
                    0,
                ) is None,
            None => forall|j: int|
                from <= j < pivots.len() ==> first_rotation(
                    bin,
                    item,
                    #[trigger] pivots[j],
                    rotation_choices(orientable),
                    0,
                ) is None,
        },
    decreases pivots.len() - from,
{
    if from < pivots.len() {
        match first_rotation(bin, item, pivots[from], rotation_choices(orientable), 0) {
            Some(r) => {
                lemma_first_rotation_fits(bin, item, pivots[from], rotation_choices(orientable), 0);
            },
            None => {
                lemma_first_fit_fits(bin, item, pivots, orientable, from + 1);
            },
        }
    }
}

/// A rotation that `first_rotation` finds is one of the choices under
/// which the item fits, and the item fits under none before it; where
/// it finds none, the item fits under none of them.
pub proof fn lemma_first_rotation_fits(
    bin: BinView,
    item: ItemView,
    pivot: Seq<u32>,
    rots: Seq<Rotation>,
    from: int,
)
    requires
        0 <= from,
    ensures
        match first_rotation(bin, item, pivot, rots, from) {
            Some(r) => fits_at(bin, item, pivot, r) && exists|k: int|
                from <= k < rots.len() && rots[k] == r && forall|j: int|
                    from <= j < k ==> !fits_at(bin, item, pivot, #[trigger] rots[j]),
            None => forall|j: int|
                from <= j < rots.len() ==> !fits_at(bin, item, pivot, #[trigger] rots[j]),
        },
    decreases rots.len() - from,
{
    if from < rots.len() {
        if fits_at(bin, item, pivot, rots[from]) {
            assert(rots[from] == rots[from] && forall|j: int|
                from <= j < from ==> !fits_at(bin, item, pivot, #[trigger] rots[j]));
        } else {
            lemma_first_rotation_fits(bin, item, pivot, rots, from + 1);
            match first_rotation(bin, item, pivot, rots, from + 1) {
                Some(r) => {
                    let k = choose|k: int|
                        from + 1 <= k < rots.len() && rots[k] == r && forall|j: int|
                            from + 1 <= j < k ==> !fits_at(bin, item, pivot, #[trigger] rots[j]);
                    assert(from <= k < rots.len() && rots[k] == r && forall|j: int|
                        from <= j < k ==> !fits_at(bin, item, pivot, #[trigger] rots[j]));
                },
                None => {},
            }
        }
    }
}

/// Tests whether a packed item collides with a box.
pub fn check_intersection(
    existing_item: &Item,
    new_item_dimension: &[u32; 3],
    new_item_position: &[u32; 3],
) -> (r: bool)
    ensures
        r == boxes_intersect(
            existing_item@.extent(),
            existing_item@.position,
            new_item_dimension@,
            new_item_position@,
        ),
{
    let existing_dimension = existing_item.get_rotated_dimension(existing_item.rotation.as_str());
    let existing_position = &existing_item.position;

    if !check_rectangle_intersection(
        &existing_dimension,
        existing_position,
        new_item_dimension,
        new_item_position,
        0,
        1,
    ) {
        return false;
    }
    if !check_rectangle_intersection(
        &existing_dimension,
        existing_position,
        new_item_dimension,
        new_item_position,
        1,
        2,
    ) {
        return false;
    }
    if !check_rectangle_intersection(
        &existing_dimension,
        existing_position,
        new_item_dimension,
        new_item_position,
        0,
        2,
    ) {
        return false;
    }
    true
}

/// Tests whether the item, turned by `r`, fits at `pivot`.
pub fn check_fits_at(bin: &Bin, item: &Item, pivot: &[u32; 3], r: Rotation) -> (ok: bool)
    ensures
        ok == fits_at(bin@, item@, pivot@, r),
{
    let item_dimension = r.apply(item.width, item.depth, item.height);
    if !check_inside(bin.width, bin.height, bin.depth, &item_dimension, pivot) {
        return false;
    }
    let mut k: usize = 0;
    while k < bin.packed_items.len()
        invariant
            k <= bin.packed_items.len(),
            bin@.packed.len() == bin.packed_items.len(),
            item_dimension@ == rotated(item.width, item.depth, item.height, r),
            forall|j: int|
                0 <= j < k ==> !boxes_intersect(
                    (#[trigger] bin@.packed[j]).extent(),
                    bin@.packed[j].position,
                    item_dimension@,
                    pivot@,
                ),
        decreases bin.packed_items.len() - k,
    {
        if check_intersection(&bin.packed_items[k], &item_dimension, pivot) {
            assert(bin@.packed[k as int] == bin.packed_items@[k as int]@);
            return false;
        }
        assert(bin@.packed[k as int] == bin.packed_items@[k as int]@);
        k = k + 1;
    }
    true
}

/// The rotations that are tried at a pivot, in order of preference.
pub fn rotations_to_try(orientable: bool) -> (rots: Vec<Rotation>)
    ensures
        rots@ == rotation_choices(orientable),
{
    let rots = if orientable {
        vec![
            Rotation::WHD,
            Rotation::HWD,
            Rotation::HDW,
            Rotation::DHW,
            Rotation::DWH,
            Rotation::WDH,
        ]
    } else {
        vec![Rotation::WHD, Rotation::DHW]
    };
    assert(rots@ =~= rotation_choices(orientable));
    rots
}

/// Finds the first rotation, in order of preference, under which the
/// item fits at `pivot`.
pub fn check_item_in_bin_at_pivot(bin: &Bin, item: &Item, pivot: &[u32; 3], orientable: bool) -> (r:
    Option<Rotation>)
    ensures
        r == first_rotation(bin@, item@, pivot@, rotation_choices(orientable), 0),
{
    let rotations = rotations_to_try(orientable);
    let mut k: usize = 0;
    while k < rotations.len()
        invariant
            k <= rotations.len(),
            rotations@ == rotation_choices(orientable),
            first_rotation(bin@, item@, pivot@, rotation_choices(orientable), 0) == first_rotation(
                bin@,
                item@,
                pivot@,
                rotation_choices(orientable),
                k as int,
            ),
        decreases rotations.len() - k,
    {
        let rt = rotations[k];
        if check_fits_at(bin, item, pivot, rt) {
            return Some(rt);
        }
        k = k + 1;
    }
    None
}

/// The outcome of one placement attempt: the container afterwards and
/// the open pivots afterwards, or `None` when the item was not placed.
pub open spec fn pack_step(
    bin: BinView,
    item: ItemView,
    pivots: Seq<Seq<u32>>,
    stackable: bool,
    orientable: bool,
) -> Option<(BinView, Seq<Seq<u32>>)> {
    match placement(bin, item, pivots, orientable) {
        None => None,
        Some((idx, rot)) => Some(
            (
                bin.with_item(item.placed(rot, pivots[idx])),
                next_pivots(
                    pivots,
                    idx,
                    rotated(item.width, item.depth, item.height, rot),
                    stackable,
                ),
            ),
        ),
    }
}

/// Adding an item at a placement that `placement` finds keeps the
/// container's invariant: the item lies inside, collides with nothing,
/// and capacity is respected.
pub proof fn lemma_pack_step_keeps_invariant(
    bin: BinView,
    item: ItemView,
    pivots: Seq<Seq<u32>>,
    stackable: bool,
    orientable: bool,
)
    requires
        bin.wf(),
    ensures
        match pack_step(bin, item, pivots, stackable, orientable) {
            Some((next, _)) => next.wf(),
            None => true,
        },
{
    match placement(bin, item, pivots, orientable) {
        None => {},
        Some((idx, rot)) => {
            lemma_first_fit_fits(bin, item, pivots, orientable, 0);
            lemma_label_round_trip(rot);
            let packed = item.placed(rot, pivots[idx]);
            let next = bin.with_item(packed);
            assert(packed.extent() == rotated(item.width, item.depth, item.height, rot));
            assert(next.packed.drop_last() =~= bin.packed);
            assert(packed.volume() == item.volume());
            assert forall|i: int| 0 <= i < next.packed.len() implies inside(
                next.width,
                next.height,
                next.depth,
                (#[trigger] next.packed[i]).extent(),
                next.packed[i].position,
            ) by {
                if i < bin.packed.len() {
                    assert(next.packed[i] == bin.packed[i]);
                }
            }
            assert forall|i: int, j: int| 0 <= i < j < next.packed.len() implies !boxes_intersect(
                (#[trigger] next.packed[i]).extent(),
                next.packed[i].position,
                (#[trigger] next.packed[j]).extent(),
                next.packed[j].position,
            ) by {
                assert(next.packed[i] == bin.packed[i]);
                if j < bin.packed.len() {
                    assert(next.packed[j] == bin.packed[j]);
                }
            }
        },
    }
}

/// A placement adds exactly the item's volume and weight to what the
/// container holds, and both stay within the container's capacity.
pub proof fn lemma_pack_step_capacity(
    bin: BinView,
    item: ItemView,
    pivots: Seq<Seq<u32>>,
    stackable: bool,
    orientable: bool,
)
    ensures
        match pack_step(bin, item, pivots, stackable, orientable) {
            Some((next, _)) => next.packed_volume() == bin.packed_volume() + item.volume()
                && next.packed_weight() == bin.packed_weight() + item.weight
                && next.within_capacity() && next.packed_volume() <= u128::MAX
                && next.packed.len() == bin.packed.len() + 1,
            None => true,
        },
{
    match placement(bin, item, pivots, orientable) {
        None => {},
        Some((idx, rot)) => {
            let packed = item.placed(rot, pivots[idx]);
            let next = bin.with_item(packed);
            assert(next.packed.drop_last() =~= bin.packed);
            assert(packed.volume() == item.volume());
            lemma_volume_bounds(next.width, next.depth, next.height);
        },
    }
}

/// Tests whether two pivots are the same point.
pub fn same_pivot(a: &[u32; 3], b: &[u32; 3]) -> (r: bool)
    ensures
        r == (a@ == b@),
{
    let r = a[0] == b[0] && a[1] == b[1] && a[2] == b[2];
    assert(r == (a@ =~= b@));
    r
}

/// Tries to place `item` in `bin` at one of the open pivots.
///
/// The attempt fails at once where the item's volume or weight exceeds
/// what the container has left. Otherwise the pivots are tried in
/// order, and at each pivot the rotations in order of preference; the
/// first combination that stays inside the container and collides with
/// nothing wins. On success the item is appended to the container with
/// its rotation and position recorded, and the new list of open pivots
/// is returned. On failure the container is unchanged.
pub fn pack_item_to_bin(
    bin: &mut Bin,
    item: &Item,
    open_pivots: &[[u32; 3]],
    stackable: bool,
    orientable: bool,
) -> (r: Option<Vec<[u32; 3]>>)
    requires
        old(bin)@.packed_volume() <= u128::MAX,
    ensures
        match pack_step(old(bin)@, item@, pivot_seq(open_pivots@), stackable, orientable) {
            Some((next, pivots)) => r is Some && final(bin)@ == next && pivot_seq(r.unwrap()@)
                == pivots,
            None => r is None && final(bin)@ == old(bin)@,
        },
        old(bin)@.wf() ==> final(bin)@.wf(),
        final(bin)@.packed_volume() <= u128::MAX,
        r is Some ==> final(bin)@.within_capacity(),
{
    let ghost before = bin@;
    let ghost pivots = pivot_seq(open_pivots@);
    proof {
        if before.wf() {
            lemma_pack_step_keeps_invariant(before, item@, pivots, stackable, orientable);
        }
        lemma_first_fit_fits(before, item@, pivots, orientable, 0);
        lemma_pack_step_capacity(before, item@, pivots, stackable, orientable);
        lemma_total_volume_prefix(before.packed, before.packed.len() as int);
        lemma_total_weight_prefix(before.packed, before.packed.len() as int);
    }
    let item_volume = item.get_volume();
    let bin_volume = bin.get_volume();
    let item_weight = item.weight as u128;
    let max_weight = bin.max_weight as u128;
    if item_volume > bin_volume || bin.get_packed_items_volume() > bin_volume - item_volume
        || item_weight > max_weight || bin.get_packed_items_weight() > max_weight - item_weight {
        return None;
    }
    let mut i: usize = 0;
    while i < open_pivots.len()
        invariant
            i <= open_pivots.len(),
            bin@ == before,
            *bin == *old(bin),
            pivots == pivot_seq(open_pivots@),
            !over_capacity(before, item@),
            before.packed_volume() <= u128::MAX,
            match pack_step(before, item@, pivots, stackable, orientable) {
                Some((next, _)) => next.within_capacity() && next.packed_volume() <= u128::MAX,
                None => true,
            },
            before.wf() ==> match pack_step(before, item@, pivots, stackable, orientable) {
                Some((next, _)) => next.wf(),
                None => true,
            },
            first_fit(before, item@, pivots, orientable, 0) == first_fit(
                before,
                item@,
                pivots,
                orientable,
                i as int,
            ),
        decreases open_pivots.len() - i,
    {
        let pivot = open_pivots[i];
        assert(pivots[i as int] == pivot@);
        match check_item_in_bin_at_pivot(bin, item, &pivot, orientable) {
            Some(rotation) => {
                let item_dimension = rotation.apply(item.width, item.depth, item.height);
                proof {
                    lemma_first_rotation_fits(
                        before,
                        item@,
                        pivot@,
                        rotation_choices(orientable),
                        0,
                    );
                }
                let mut new_pivots: Vec<[u32; 3]> = Vec::new();
                new_pivots.push([pivot[0] + item_dimension[0], pivot[1], pivot[2]]);
                new_pivots.push([pivot[0], pivot[1], pivot[2] + item_dimension[2]]);
                if stackable {
                    new_pivots.push([pivot[0], pivot[1] + item_dimension[1], pivot[2]]);
                }
                assert(pivot_seq(new_pivots@) =~= opened(pivot@, item_dimension@, stackable)) by {
                    let got = pivot_seq(new_pivots@);
                    let want = opened(pivot@, item_dimension@, stackable);
                    assert(got.len() == want.len());
                    assert forall|k: int| 0 <= k < got.len() implies got[k] == want[k] by {
                        assert(got[k] =~= want[k]);
                    }
                }
                let ghost fresh = opened(pivot@, item_dimension@, stackable);
                let mut k: usize = 0;
                while k < open_pivots.len()
                    invariant
                        k <= open_pivots.len(),
                        pivots == pivot_seq(open_pivots@),
                        pivot_seq(new_pivots@) == fresh + carried_over(pivots, pivot@, k as int),
                    decreases open_pivots.len() - k,
                {
                    let existing_pivot = open_pivots[k];
                    assert(pivots[k as int] == existing_pivot@);
                    let ghost prior = pivot_seq(new_pivots@);
                    if !same_pivot(&existing_pivot, &pivot) {
                        new_pivots.push(existing_pivot);
                        assert(pivot_seq(new_pivots@) =~= prior.push(existing_pivot@));
                    }
                    assert(pivot_seq(new_pivots@) =~= fresh + carried_over(
                        pivots,
                        pivot@,
                        k as int + 1,
                    ));
                    k = k + 1;
                }
                let mut packed_item = item.duplicate();
                packed_item.rotation = rotation.label();
                packed_item.position = pivot;
                assert(packed_item@ == item@.placed(rotation, pivot@));
                bin.packed_items.push(packed_item);
                assert(bin@.packed =~= before.packed.push(packed_item@));
                assert(bin@ == before.with_item(packed_item@));
                return Some(new_pivots);
            },
            None => {},
        }
        i = i + 1;
    }
    None
}

/// The single open pivot of an empty container: its lower corner.
pub open spec fn origin() -> Seq<Seq<u32>> {
    seq![seq![0u32, 0u32, 0u32]]
}

/// The container after `items[from..]` have been offered to it one by
/// one, each placed where `pack_step` puts it. The first item that
/// cannot be placed ends the attempt: no later item is offered.
pub open spec fn fill(bin: BinView, items: Seq<ItemView>, pivots: Seq<Seq<u32>>, from: int) -> BinView
    decreases items.len() - from,
{
    if from < 0 || from >= items.len() {
        bin
    } else {
        match pack_step(
            bin,
            items[from],
            pivots,
            items[from].is_stackable(),
            items[from].is_orientable(),
        ) {
            None => bin,
            Some((next, next_open)) => fill(next, items, next_open, from + 1),
        }
    }
}

/// The container after all of `items` have been offered to it,
/// starting from the single pivot at its lower corner.
pub open spec fn attempt(bin: BinView, items: Seq<ItemView>) -> BinView {
    fill(bin, items, origin(), 0)
}

/// Whether the container is passed over without an attempt: its
/// weight limit or its volume is below the total asked for.
pub open spec fn quick_reject(bin: BinView, total_weight: int, total_volume: int) -> bool {
    bin.max_weight < total_weight || bin.volume() < total_volume
}

/// Whether the container is a full match: it is not passed over, and
/// after the attempt it holds as many items as were offered.
pub open spec fn accepts(
    bin: BinView,
    items: Seq<ItemView>,
    total_weight: int,
    total_volume: int,
) -> bool {
    !quick_reject(bin, total_weight, total_volume) && attempt(bin, items).packed.len()
        == items.len()
}

/// A container as the search leaves it once it has looked at it.
pub open spec fn searched(
    bin: BinView,
    items: Seq<ItemView>,
    total_weight: int,
    total_volume: int,
) -> BinView {
    if quick_reject(bin, total_weight, total_volume) {
        bin
    } else {
        attempt(bin, items)
    }
}

/// Whether `bins[k]` is a full match and no container before it is.
pub open spec fn is_first_match(
    bins: Seq<BinView>,
    items: Seq<ItemView>,
    total_weight: int,
    total_volume: int,
    k: int,
) -> bool {
    0 <= k < bins.len() && accepts(bins[k], items, total_weight, total_volume) && forall|j: int|
        0 <= j < k ==> !accepts(#[trigger] bins[j], items, total_weight, total_volume)
}

/// Whether the search gets as far as `bins[j]`: no container before
/// it is a full match.
pub open spec fn reached(
    bins: Seq<BinView>,
    items: Seq<ItemView>,
    total_weight: int,
    total_volume: int,
    j: int,
) -> bool {
    forall|i: int|
        0 <= i < j && i < bins.len() ==> !accepts(
            #[trigger] bins[i],
            items,
            total_weight,
            total_volume,
        )
}

/// How many items the search places in each container: in one that
/// it gets to, as many as its attempt adds; in the others, none.
pub open spec fn placed_counts(
    bins: Seq<BinView>,
    items: Seq<ItemView>,
    total_weight: int,
    total_volume: int,
) -> Seq<int> {
    Seq::new(
        bins.len(),
        |j: int|
            if reached(bins, items, total_weight, total_volume, j) {
                searched(bins[j], items, total_weight, total_volume).packed.len()
                    - bins[j].packed.len()
            } else {
                0
            },
    )
}

/// A list of counts as mathematical integers.
pub open spec fn counts_view(counts: Seq<usize>) -> Seq<int> {
    counts.map_values(|c: usize| c as int)
}

/// What the search returns: the first full match as it is after its
/// attempt, or nothing where no container is a full match.
pub open spec fn selects(
    bins: Seq<BinView>,
    items: Seq<ItemView>,
    total_weight: int,
    total_volume: int,
    outcome: Option<BinView>,
) -> bool {
    match outcome {
        Some(found) => exists|k: int| #[trigger]
            is_first_match(bins, items, total_weight, total_volume, k) && found == attempt(
                bins[k],
                items,
            ),
        None => forall|k: int|
            0 <= k < bins.len() ==> !accepts(#[trigger] bins[k], items, total_weight, total_volume),
    }
}

/// The search is a function of its inputs: whatever two runs on the
/// same containers, items and totals return, they return the same
/// container with every item at the same position under the same
/// rotation, or both return nothing.
pub proof fn lemma_selection_is_determined(
    bins: Seq<BinView>,
    items: Seq<ItemView>,
    total_weight: int,
    total_volume: int,
    first: Option<BinView>,
    second: Option<BinView>,
)
    requires
        selects(bins, items, total_weight, total_volume, first),
        selects(bins, items, total_weight, total_volume, second),
    ensures
        first == second,
{
    if first is Some && second is Some {
        let k1 = choose|k: int| #[trigger]
            is_first_match(bins, items, total_weight, total_volume, k) && first.unwrap() == attempt(
                bins[k],
                items,
            );
        let k2 = choose|k: int| #[trigger]
            is_first_match(bins, items, total_weight, total_volume, k) && second.unwrap()
                == attempt(bins[k], items);
        assert(k1 == k2);
    } else if first is Some {
        let k1 = choose|k: int| #[trigger]
            is_first_match(bins, items, total_weight, total_volume, k) && first.unwrap() == attempt(
                bins[k],
                items,
            );
        assert(!accepts(bins[k1], items, total_weight, total_volume));
    } else if second is Some {
        let k2 = choose|k: int| #[trigger]
            is_first_match(bins, items, total_weight, total_volume, k) && second.unwrap()
                == attempt(bins[k], items);
        assert(!accepts(bins[k2], items, total_weight, total_volume));
    }
}

/// Offering items to a container that satisfies its invariant leaves
/// a container that satisfies it: every packed item lies inside, no
/// two collide, and neither volume nor weight limit is exceeded.
pub proof fn lemma_fill_keeps_invariant(
    bin: BinView,
    items: Seq<ItemView>,
    pivots: Seq<Seq<u32>>,
    from: int,
)
    requires
        bin.wf(),
    ensures
        fill(bin, items, pivots, from).wf(),
    decreases items.len() - from,
{
    if 0 <= from < items.len() {
        let item = items[from];
        lemma_pack_step_keeps_invariant(
            bin,
            item,
            pivots,
            item.is_stackable(),
            item.is_orientable(),
        );
        match pack_step(bin, item, pivots, item.is_stackable(), item.is_orientable()) {
            None => {},
            Some((next, next_open)) => {
                lemma_fill_keeps_invariant(next, items, next_open, from + 1);
            },
        }
    }
}

/// The values of a list of items.
pub open spec fn item_views(items: Seq<Item>) -> Seq<ItemView> {
    items.map_values(|i: Item| i@)
}

/// The values of a list of containers.
pub open spec fn bin_views(bins: Seq<Bin>) -> Seq<BinView> {
    bins.map_values(|b: Bin| b@)
}

/// The value of a search result.
pub open spec fn outcome_view(outcome: Option<Bin>) -> Option<BinView> {
    match outcome {
        Some(b) => Some(b@),
        None => None,
    }
}

/// Offers every item, in order, to `bin`, starting from the single
/// pivot at its lower corner, and stops at the first item that cannot
/// be placed. Returns how many items were placed.
pub fn fill_bin(bin: &mut Bin, items: &Vec<Item>) -> (placed: usize)
    requires
        old(bin)@.packed_volume() <= u128::MAX,
    ensures
        final(bin)@ == attempt(old(bin)@, item_views(items@)),
        placed == final(bin)@.packed.len() - old(bin)@.packed.len(),
        placed <= items@.len(),
        old(bin)@.wf() ==> final(bin)@.wf(),
        final(bin)@.packed_volume() <= u128::MAX,
{
    let ghost start = bin@;
    let ghost iv = item_views(items@);
    let mut open_pivots: Vec<[u32; 3]> = Vec::new();
    open_pivots.push([0, 0, 0]);
    assert(pivot_seq(open_pivots@) =~= origin()) by {
        assert(pivot_seq(open_pivots@)[0] =~= origin()[0]);
    }
    let mut index: usize = 0;
    let mut failed = false;
    while index < items.len() && !failed
        invariant
            index <= items.len(),
            iv == item_views(items@),
            bin@.packed_volume() <= u128::MAX,
            bin@.packed.len() == start.packed.len() + index,
            start.wf() ==> bin@.wf(),
            attempt(start, iv) == (if failed {
                bin@
            } else {
                fill(bin@, iv, pivot_seq(open_pivots@), index as int)
            }),
        decreases items.len() - index + (if failed { 0int } else { 1int }),
    {
        let item = &items[index];
        assert(iv[index as int] == item@);
        let stackable = match item.stackable {
            Some(s) => s,
            None => true,
        };
        let orientable = match item.orientable {
            Some(o) => o,
            None => true,
        };
        match pack_item_to_bin(bin, item, open_pivots.as_slice(), stackable, orientable) {
            Some(new_pivots) => {
                open_pivots = new_pivots;
                index = index + 1;
            },
            None => {
                failed = true;
            },
        }
    }
    index
}

/// A list of `n` zeros.
pub fn zero_counts(n: usize) -> (counts: Vec<usize>)
    ensures
        counts@.len() == n,
        forall|j: int| 0 <= j < n ==> #[trigger] counts@[j] == 0,
{
    let mut counts: Vec<usize> = Vec::new();
    while counts.len() < n
        invariant
            counts@.len() <= n,
            forall|j: int| 0 <= j < counts@.len() ==> #[trigger] counts@[j] == 0,
        decreases n - counts.len(),
    {
        counts.push(0);
    }
    counts
}

/// Finds the first container, in the given order, that takes every
/// item, and counts the items placed in each container on the way.
///
/// A container whose weight limit is below `total_order_weight` or
/// whose volume is below `total_order_volume` is passed over. Every
/// other container is offered the items in order, from the single
/// pivot at its lower corner, until one cannot be placed. The attempt
/// is made on a copy: the containers given are not changed. A
/// container whose copy then holds as many items as were offered is a
/// full match; the copy is returned, and no later container is looked
/// at.
pub fn find_fitting_container(
    items: &Vec<Item>,
    containers: &Vec<Bin>,
    total_weight: u128,
    total_volume: u128,
) -> (r: (Option<Bin>, Vec<usize>))
    requires
        forall|j: int|
            0 <= j < containers@.len() ==> (#[trigger] containers@[j])@.packed_volume()
                <= u128::MAX,
    ensures
        selects(
            bin_views(containers@),
            item_views(items@),
            total_weight as int,
            total_volume as int,
            outcome_view(r.0),
        ),
        counts_view(r.1@) == placed_counts(
            bin_views(containers@),
            item_views(items@),
            total_weight as int,
            total_volume as int,
        ),
        (forall|j: int| 0 <= j < containers@.len() ==> (#[trigger] containers@[j])@.wf())
            ==> r.0 is Some ==> r.0.unwrap()@.wf(),
{
    let ghost bv = bin_views(containers@);
    let ghost iv = item_views(items@);
    let ghost tw = total_weight as int;
    let ghost tv = total_volume as int;
    let mut counts = zero_counts(containers.len());
    let mut bin_index: usize = 0;
    while bin_index < containers.len()
        invariant
            bin_index <= containers.len(),
            counts@.len() == containers@.len(),
            bv == bin_views(containers@),
            iv == item_views(items@),
            tw == total_weight as int,
            tv == total_volume as int,
            forall|j: int| 0 <= j < bin_index ==> !accepts(#[trigger] bv[j], iv, tw, tv),
            forall|j: int|
                0 <= j < bin_index ==> #[trigger] counts@[j] == searched(
                    bv[j],
                    iv,
                    tw,
                    tv,
                ).packed.len() - bv[j].packed.len(),
            forall|j: int| bin_index <= j < counts@.len() ==> #[trigger] counts@[j] == 0,
            forall|j: int|
                0 <= j < containers@.len() ==> (#[trigger] containers@[j])@.packed_volume()
                    <= u128::MAX,
        decreases containers.len() - bin_index,
    {
        assert(bv[bin_index as int] == containers@[bin_index as int]@);
        if containers[bin_index].max_weight as u128 >= total_weight
            && containers[bin_index].get_volume() >= total_volume {
            let mut bin = containers[bin_index].duplicate();
            let placed = fill_bin(&mut bin, items);
            counts.set(bin_index, placed);
            if bin.packed_items.len() == items.len() {
                proof {
                    assert(is_first_match(bv, iv, tw, tv, bin_index as int));
                    assert forall|j: int| 0 <= j < bv.len() implies counts_view(counts@)[j]
                        == placed_counts(bv, iv, tw, tv)[j] by {
                        if j > bin_index {
                            assert(accepts(bv[bin_index as int], iv, tw, tv));
                        }
                    }
                    assert(counts_view(counts@) =~= placed_counts(bv, iv, tw, tv));
                }
                return (Some(bin), counts);
            }
        }
        bin_index = bin_index + 1;
    }
    proof {
        assert(counts_view(counts@) =~= placed_counts(bv, iv, tw, tv));
    }
    (None, counts)
}

/// Finds the first container, in the given order, that takes every
/// item.
///
/// The search is that of [`find_fitting_container`]. The containers
/// given are left as they were: the container returned is a copy that
/// holds the packing.
pub fn get_smallest_fitting_bin_for_item_vector(
    sorted_item_list: &Vec<Item>,
    sorted_bin_list: &mut Vec<Bin>,
    total_order_weight: u128,
    total_order_volume: u128,
) -> (r: Option<Bin>)
    requires
        forall|j: int|
            0 <= j < old(sorted_bin_list)@.len() ==> (#[trigger] old(
                sorted_bin_list,
            )@[j])@.packed_volume() <= u128::MAX,
    ensures
        selects(
            bin_views(old(sorted_bin_list)@),
            item_views(sorted_item_list@),
            total_order_weight as int,
            total_order_volume as int,
            outcome_view(r),
        ),
        final(sorted_bin_list)@ == old(sorted_bin_list)@,
        (forall|j: int|
            0 <= j < old(sorted_bin_list)@.len() ==> (#[trigger] old(sorted_bin_list)@[j])@.wf())
            ==> r is Some ==> r.unwrap()@.wf(),
{
    let found = find_fitting_container(
        sorted_item_list,
        sorted_bin_list,
        total_order_weight,
        total_order_volume,
    );
    found.0
}

} // verus!
