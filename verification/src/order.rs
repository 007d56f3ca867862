//! Orders: lists of items, and orders known by weight and volume only.

use crate::bin::{lemma_total_volume_prefix, lemma_total_weight_prefix, total_volume, total_weight};
use crate::item::{Item, ItemView, RawItem, RawItemView};
use vstd::prelude::*;
use vstd::string::StringExecFns;

verus! {

/// The character of a decimal digit.
pub open spec fn digit(d: int) -> Seq<char> {
    if d == 0 {
        "0"@
    } else if d == 1 {
        "1"@
    } else if d == 2 {
        "2"@
    } else if d == 3 {
        "3"@
    } else if d == 4 {
        "4"@
    } else if d == 5 {
        "5"@
    } else if d == 6 {
        "6"@
    } else if d == 7 {
        "7"@
    } else if d == 8 {
        "8"@
    } else {
        "9"@
    }
}

/// The decimal numeral of `n`, without leading zeros.
pub open spec fn decimal(n: int) -> Seq<char>
    decreases n,
{
    if n < 10 {
        digit(n)
    } else {
        decimal(n / 10) + digit(n % 10)
    }
}

/// The character of a decimal digit, as a string.
pub fn digit_string(d: u64) -> (s: String)
    requires
        d < 10,
    ensures
        s@ == digit(d as int),
{
    if d == 0 {
        "0".to_owned()
    } else if d == 1 {
        "1".to_owned()
    } else if d == 2 {
        "2".to_owned()
    } else if d == 3 {
        "3".to_owned()
    } else if d == 4 {
        "4".to_owned()
    } else if d == 5 {
        "5".to_owned()
    } else if d == 6 {
        "6".to_owned()
    } else if d == 7 {
        "7".to_owned()
    } else if d == 8 {
        "8".to_owned()
    } else {
        "9".to_owned()
    }
}

/// The decimal numeral of `n`, without leading zeros.
pub fn decimal_string(n: u64) -> (s: String)
    ensures
        s@ == decimal(n as int),
    decreases n,
{
    if n < 10 {
        digit_string(n)
    } else {
        let last = digit_string(n % 10);
        decimal_string(n / 10).concat(last.as_str())
    }
}

/// The name of unit `index` of the line `item` of the order `order`:
/// the two names and the index, joined by `@`.
pub open spec fn unit_name(order: Seq<char>, item: Seq<char>, index: int) -> Seq<char> {
    order + "@"@ + item + "@"@ + decimal(index)
}

/// An order as it arrives from the caller: lines with quantities, and
/// the flags that all its items share.
#[derive(Debug)]
pub struct RawOrder {
    pub name: String,
    pub items: Vec<RawItem>,
    pub orientable: Option<bool>,
    pub stackable: Option<bool>,
}

impl RawOrder {
    /// The values of the order's lines.
    pub open spec fn line_views(&self) -> Seq<RawItemView> {
        self.items@.map_values(|i: RawItem| i@)
    }

    /// Unit `index` of the line `line`: an item of the line's size and
    /// weight, with the order's flags, not yet packed.
    pub open spec fn unit(&self, line: RawItemView, index: int) -> ItemView {
        ItemView {
            name: unit_name(self.name@, line.name, index),
            width: line.width,
            depth: line.depth,
            height: line.height,
            weight: line.weight,
            orientable: self.orientable,
            stackable: self.stackable,
            rotation: "RT_WHD"@,
            position: seq![0u32, 0u32, 0u32],
        }
    }

    /// The first `count` units of the line `line`.
    pub open spec fn units(&self, line: RawItemView, count: int) -> Seq<ItemView> {
        Seq::new(if count < 0 { 0nat } else { count as nat }, |i: int| self.unit(line, i))
    }

    /// The units of the first `n` lines, line by line.
    pub open spec fn expanded(&self, n: int) -> Seq<ItemView>
        decreases n,
    {
        if n <= 0 {
            Seq::empty()
        } else {
            self.expanded(n - 1) + self.units(self.line_views()[n - 1], self.line_views()[n
                - 1].quantity as int)
        }
    }

    /// Expands every line of quantity `q` into `q` items of quantity
    /// one; a line whose quantity is not positive gives none.
    pub fn create_order_from_raw_order(&self) -> (order: Order)
        ensures
            order.name@ == self.name@,
            order.item_views() == self.expanded(self.items@.len() as int),
    {
        let mut items: Vec<Item> = Vec::new();
        let mut n: usize = 0;
        assert(items@.map_values(|i: Item| i@) =~= self.expanded(0));
        while n < self.items.len()
            invariant
                n <= self.items.len(),
                items@.map_values(|i: Item| i@) == self.expanded(n as int),
            decreases self.items.len() - n,
        {
            let item = &self.items[n];
            assert(self.line_views()[n as int] == item@);
            let mut i: i32 = 0;
            assert(items@.map_values(|i: Item| i@) =~= self.expanded(n as int) + self.units(
                item@,
                0,
            ));
            while i < item.quantity
                invariant
                    0 <= i,
                    i <= item.quantity || i == 0,
                    items@.map_values(|i: Item| i@) == self.expanded(n as int) + self.units(
                        item@,
                        i as int,
                    ),
                decreases item.quantity - i,
            {
                let ghost prior = items@.map_values(|i: Item| i@);
                let name = self.name.clone().concat("@").concat(item.name.as_str()).concat(
                    "@",
                ).concat(decimal_string(i as u64).as_str());
                let unit = Item {
                    name: name,
                    width: item.width,
                    depth: item.depth,
                    height: item.height,
                    weight: item.weight,
                    rotation: "RT_WHD".to_owned(),
                    position: [0, 0, 0],
                    orientable: self.orientable,
                    stackable: self.stackable,
                };
                assert(unit@.position =~= seq![0u32, 0u32, 0u32]);
                assert(unit@ == self.unit(item@, i as int));
                items.push(unit);
                assert(items@.map_values(|i: Item| i@) =~= prior.push(unit@));
                assert(self.units(item@, i as int + 1) =~= self.units(item@, i as int).push(
                    unit@,
                ));
                assert(items@.map_values(|i: Item| i@) =~= self.expanded(n as int) + self.units(
                    item@,
                    i as int + 1,
                ));
                i = i + 1;
            }
            assert(self.units(item@, i as int) =~= self.units(item@, item.quantity as int));
            n = n + 1;
        }
        Order { name: self.name.clone(), items }
    }
}

/// A named list of items.
#[derive(Debug)]
pub struct Order {
    pub name: String,
    pub items: Vec<Item>,
}

impl Order {
    /// The values of the order's items.
    pub open spec fn item_views(&self) -> Seq<ItemView> {
        self.items@.map_values(|i: Item| i@)
    }

    /// The summed volume of the order's items. The sum has to fit in
    /// 128 bits.
    pub fn get_order_volume(&self) -> (total: u128)
        requires
            total_volume(self.item_views()) <= u128::MAX,
        ensures
            total == total_volume(self.item_views()),
    {
        let mut total: u128 = 0;
        let mut i: usize = 0;
        proof {
            lemma_total_volume_prefix(self.item_views(), 0);
        }
        while i < self.items.len()
            invariant
                i <= self.items.len(),
                self.item_views().len() == self.items.len(),
                total == total_volume(self.item_views().take(i as int)),
                total_volume(self.item_views()) <= u128::MAX,
            decreases self.items.len() - i,
        {
            proof {
                lemma_total_volume_prefix(self.item_views(), i as int);
                lemma_total_volume_prefix(self.item_views(), i as int + 1);
            }
            total = total + self.items[i].get_volume();
            i = i + 1;
        }
        proof {
            assert(self.item_views().take(i as int) =~= self.item_views());
        }
        total
    }

    /// The summed weight of the order's items.
    pub fn get_order_weight(&self) -> (total: u128)
        ensures
            total == total_weight(self.item_views()),
    {
        let mut total: u128 = 0;
        let mut i: usize = 0;
        proof {
            lemma_total_weight_prefix(self.item_views(), 0);
        }
        while i < self.items.len()
            invariant
                i <= self.items.len(),
                self.item_views().len() == self.items.len(),
                total == total_weight(self.item_views().take(i as int)),
                total <= i * 0xffff_ffff_ffff_ffff,
            decreases self.items.len() - i,
        {
            proof {
                lemma_total_weight_prefix(self.item_views(), i as int);
                lemma_total_weight_prefix(self.item_views(), i as int + 1);
            }
            total = total + self.items[i].weight as u128;
            i = i + 1;
        }
        proof {
            lemma_total_weight_prefix(self.item_views(), i as int);
        }
        total
    }
}

/// An order of which only the weight and, optionally, the volume are
/// known.
#[derive(Debug)]
pub struct DimensionLessOrder {
    pub id: String,
    pub weight: u64,
    pub volume: Option<u64>,
}

/// The mathematical value of a [`DimensionLessOrder`].
pub struct DimensionLessOrderView {
    pub id: Seq<char>,
    pub weight: u64,
    pub volume: Option<u64>,
}

impl DimensionLessOrderView {
    /// The volume that the order takes up; an unknown volume counts
    /// as none.
    pub open spec fn volume_or_zero(self) -> u64 {
        match self.volume {
            Some(v) => v,
            None => 0,
        }
    }
}

impl View for DimensionLessOrder {
    type V = DimensionLessOrderView;

    open spec fn view(&self) -> DimensionLessOrderView {
        DimensionLessOrderView { id: self.id@, weight: self.weight, volume: self.volume }
    }
}

impl DimensionLessOrder {
    /// A copy of this order, equal to it in every field.
    pub fn duplicate(&self) -> (r: DimensionLessOrder)
        ensures
            r@ == self@,
    {
        DimensionLessOrder { id: self.id.clone(), weight: self.weight, volume: self.volume }
    }
}

/// The summed weight of the first `n` orders.
pub open spec fn summed_weight(orders: Seq<DimensionLessOrderView>, n: int) -> int
    decreases n,
{
    if n <= 0 {
        0
    } else {
        summed_weight(orders, n - 1) + orders[n - 1].weight
    }
}

/// The summed volume of the first `n` orders; an unknown volume counts
/// as none.
pub open spec fn summed_volume(orders: Seq<DimensionLessOrderView>, n: int) -> int
    decreases n,
{
    if n <= 0 {
        0
    } else {
        summed_volume(orders, n - 1) + orders[n - 1].volume_or_zero()
    }
}

/// The values of a list of orders.
pub open spec fn order_views(orders: Seq<DimensionLessOrder>) -> Seq<DimensionLessOrderView> {
    orders.map_values(|o: DimensionLessOrder| o@)
}

} // verus!
