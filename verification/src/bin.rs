//! Containers and what they hold.

use crate::geometry::{boxes_intersect, inside};
use crate::item::{lemma_volume_bounds, volume_of, Item, ItemView};
use crate::order::{order_views, DimensionLessOrder, DimensionLessOrderView};
use vstd::prelude::*;

verus! {

/// The summed volume of a sequence of items.
pub open spec fn total_volume(items: Seq<ItemView>) -> int
    decreases items.len(),
{
    if items.len() == 0 {
        0
    } else {
        total_volume(items.drop_last()) + items.last().volume()
    }
}

/// The summed weight of a sequence of items.
pub open spec fn total_weight(items: Seq<ItemView>) -> int
    decreases items.len(),
{
    if items.len() == 0 {
        0
    } else {
        total_weight(items.drop_last()) + items.last().weight
    }
}

/// The volume of a prefix never exceeds the volume of the whole.
pub proof fn lemma_total_volume_prefix(items: Seq<ItemView>, n: int)
    requires
        0 <= n <= items.len(),
    ensures
        0 <= total_volume(items.take(n)) <= total_volume(items),
        n < items.len() ==> total_volume(items.take(n + 1)) == total_volume(items.take(n))
            + items[n].volume(),
    decreases items.len(),
{
    if items.len() > 0 {
        let last = items.last();
        lemma_volume_bounds(last.width, last.depth, last.height);
    }
    if n < items.len() {
        assert(items.take(n + 1).drop_last() =~= items.take(n));
        lemma_volume_bounds(items[n].width, items[n].depth, items[n].height);
        assert(items.drop_last().take(n) =~= items.take(n));
        lemma_total_volume_prefix(items.drop_last(), n);
    } else {
        assert(items.take(n) =~= items);
        if n > 0 {
            lemma_total_volume_prefix(items.drop_last(), n - 1);
            assert(items.drop_last().take(n - 1) =~= items.drop_last());
        }
    }
}

/// The weight of a prefix is bounded by its length, and grows by one
/// item's weight with each item.
pub proof fn lemma_total_weight_prefix(items: Seq<ItemView>, n: int)
    requires
        0 <= n <= items.len(),
    ensures
        0 <= total_weight(items.take(n)) <= n * 0xffff_ffff_ffff_ffff,
        n < items.len() ==> total_weight(items.take(n + 1)) == total_weight(items.take(n))
            + items[n].weight,
        n == items.len() ==> items.take(n) == items,
    decreases n,
{
    if n < items.len() {
        assert(items.take(n + 1).drop_last() =~= items.take(n));
    } else {
        assert(items.take(n) =~= items);
    }
    if n > 0 {
        lemma_total_weight_prefix(items, n - 1);
    }
}

/// A rectangular container and the items packed into it so far, in
/// the order in which they were packed.
#[derive(Debug)]
pub struct Bin {
    pub name: String,
    pub width: u32,
    pub depth: u32,
    pub height: u32,
    pub max_weight: u64,
    pub packed_items: Vec<Item>,
}

/// The mathematical value of a [`Bin`].
pub struct BinView {
    pub name: Seq<char>,
    pub width: u32,
    pub depth: u32,
    pub height: u32,
    pub max_weight: u64,
    pub packed: Seq<ItemView>,
}

impl BinView {
    /// Width times depth times height.
    pub open spec fn volume(self) -> int {
        self.width as int * self.depth as int * self.height as int
    }

    pub open spec fn packed_volume(self) -> int {
        total_volume(self.packed)
    }

    pub open spec fn packed_weight(self) -> int {
        total_weight(self.packed)
    }

    /// The packed items exceed neither the container's volume nor its
    /// weight limit.
    pub open spec fn within_capacity(self) -> bool {
        self.packed_volume() <= self.volume() && self.packed_weight() <= self.max_weight
    }

    /// Every packed item lies inside the container.
    pub open spec fn all_inside(self) -> bool {
        forall|i: int|
            0 <= i < self.packed.len() ==> inside(
                self.width,
                self.height,
                self.depth,
                (#[trigger] self.packed[i]).extent(),
                self.packed[i].position,
            )
    }

    /// No two packed items collide.
    pub open spec fn all_disjoint(self) -> bool {
        forall|i: int, j: int|
            0 <= i < j < self.packed.len() ==> !boxes_intersect(
                (#[trigger] self.packed[i]).extent(),
                self.packed[i].position,
                (#[trigger] self.packed[j]).extent(),
                self.packed[j].position,
            )
    }

    /// The invariant of a container: capacity is respected, every
    /// packed item lies inside, and no two of them collide.
    pub open spec fn wf(self) -> bool {
        self.within_capacity() && self.all_inside() && self.all_disjoint()
    }

    /// The container with one more packed item.
    pub open spec fn with_item(self, item: ItemView) -> BinView {
        BinView { packed: self.packed.push(item), ..self }
    }
}

impl View for Bin {
    type V = BinView;

    open spec fn view(&self) -> BinView {
        BinView {
            name: self.name@,
            width: self.width,
            depth: self.depth,
            height: self.height,
            max_weight: self.max_weight,
            packed: self.packed_items@.map_values(|i: Item| i@),
        }
    }
}

impl Bin {
    pub fn get_volume(&self) -> (v: u128)
        ensures
            v == self@.volume(),
    {
        volume_of(self.width, self.depth, self.height)
    }

    /// The summed volume of the packed items. The sum has to fit in
    /// 128 bits, which it does in every container within its capacity.
    pub fn get_packed_items_volume(&self) -> (volume: u128)
        requires
            self@.packed_volume() <= u128::MAX,
        ensures
            volume == self@.packed_volume(),
    {
        let mut volume: u128 = 0;
        let mut i: usize = 0;
        proof {
            lemma_total_volume_prefix(self@.packed, 0);
        }
        while i < self.packed_items.len()
            invariant
                i <= self.packed_items.len(),
                self@.packed.len() == self.packed_items.len(),
                volume == total_volume(self@.packed.take(i as int)),
                self@.packed_volume() <= u128::MAX,
            decreases self.packed_items.len() - i,
        {
            proof {
                lemma_total_volume_prefix(self@.packed, i as int);
                lemma_total_volume_prefix(self@.packed, i as int + 1);
            }
            volume = volume + self.packed_items[i].get_volume();
            i = i + 1;
        }
        proof {
            assert(self@.packed.take(i as int) =~= self@.packed);
        }
        volume
    }

    /// The summed weight of the packed items.
    pub fn get_packed_items_weight(&self) -> (weight: u128)
        ensures
            weight == self@.packed_weight(),
    {
        let mut weight: u128 = 0;
        let mut i: usize = 0;
        proof {
            lemma_total_weight_prefix(self@.packed, 0);
        }
        while i < self.packed_items.len()
            invariant
                i <= self.packed_items.len(),
                self@.packed.len() == self.packed_items.len(),
                weight == total_weight(self@.packed.take(i as int)),
                weight <= i * 0xffff_ffff_ffff_ffff,
            decreases self.packed_items.len() - i,
        {
            proof {
                lemma_total_weight_prefix(self@.packed, i as int);
                lemma_total_weight_prefix(self@.packed, i as int + 1);
            }
            weight = weight + self.packed_items[i].weight as u128;
            i = i + 1;
        }
        proof {
            lemma_total_weight_prefix(self@.packed, i as int);
        }
        weight
    }

    /// A copy of this container, equal to it in every field and in
    /// every packed item.
    pub fn duplicate(&self) -> (r: Bin)
        ensures
            r@ == self@,
    {
        let mut packed: Vec<Item> = Vec::new();
        let mut i: usize = 0;
        while i < self.packed_items.len()
            invariant
                i <= self.packed_items.len(),
                packed@.len() == i,
                forall|k: int| 0 <= k < i ==> (#[trigger] packed@[k])@ == self.packed_items@[k]@,
            decreases self.packed_items.len() - i,
        {
            packed.push(self.packed_items[i].duplicate());
            i = i + 1;
        }
        let r = Bin {
            name: self.name.clone(),
            width: self.width,
            depth: self.depth,
            height: self.height,
            max_weight: self.max_weight,
            packed_items: packed,
        };
        assert(r@.packed =~= self@.packed);
        r
    }
}

/// A container as it arrives from the caller, before anything is packed.
#[derive(Debug)]
pub struct RawBin {
    pub name: String,
    pub depth: u32,
    pub width: u32,
    pub height: u32,
    pub max_weight: u64,
}

impl RawBin {
    /// The empty container of this description.
    pub fn convert_to_bin(&self) -> (bin: Bin)
        ensures
            bin@ == (BinView {
                name: self.name@,
                width: self.width,
                depth: self.depth,
                height: self.height,
                max_weight: self.max_weight,
                packed: Seq::empty(),
            }),
            bin@.wf(),
    {
        let bin = Bin {
            name: self.name.clone(),
            width: self.width,
            depth: self.depth,
            height: self.height,
            max_weight: self.max_weight,
            packed_items: Vec::new(),
        };
        assert(bin@.packed =~= Seq::empty());
        proof {
            lemma_volume_bounds(bin.width, bin.depth, bin.height);
        }
        bin
    }
}

/// A container known by weight and volume limits only, with the
/// orders already committed to it and the orders selected in addition.
#[derive(Debug)]
pub struct BinWithPackedOrders {
    pub id: String,
    pub max_weight: u64,
    pub max_volume: Option<u64>,
    pub packed_orders: Vec<DimensionLessOrder>,
    pub additional_packed_orders: Vec<DimensionLessOrder>,
}

/// The mathematical value of a [`BinWithPackedOrders`].
pub struct BinWithPackedOrdersView {
    pub id: Seq<char>,
    pub max_weight: u64,
    pub max_volume: Option<u64>,
    pub packed_orders: Seq<DimensionLessOrderView>,
    pub additional_packed_orders: Seq<DimensionLessOrderView>,
}

impl View for BinWithPackedOrders {
    type V = BinWithPackedOrdersView;

    open spec fn view(&self) -> BinWithPackedOrdersView {
        BinWithPackedOrdersView {
            id: self.id@,
            max_weight: self.max_weight,
            max_volume: self.max_volume,
            packed_orders: order_views(self.packed_orders@),
            additional_packed_orders: order_views(self.additional_packed_orders@),
        }
    }
}

} // verus!
